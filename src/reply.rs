use vstd::prelude::*;
use vstd::string::{StrSliceExecFns, StringExecFns};

use crate::scrape::{all_matches, first_group, regex_compiles, regex_find_all, regex_group_first};
use crate::text::{split_whitespace_words, whitespace_words, has_prefix, split_lines, starts_with, text_lines, trim_str, trimmed, views};

verus! {

/// Whether a header line is dropped from a reply.
pub open spec fn dropped_header(l: Seq<char>) -> bool {
    has_prefix(l, "From: "@) || has_prefix(l, "Date: "@) || has_prefix(l, "Message-Id: "@)
}

/// The reply built from `lines`, and whether the header part has ended.
pub open spec fn reply_scan(lines: Seq<Seq<char>>) -> (Seq<char>, bool)
    decreases lines.len(),
{
    if lines.len() == 0 {
        (Seq::empty(), false)
    } else {
        let (t, in_body) = reply_scan(lines.drop_last());
        let l = lines.last();
        if in_body {
            (t + "> "@ + l + seq!['\n'], true)
        } else if has_prefix(l, "Subject: "@) {
            (t + "Subject: Re: "@ + l.subrange(9, l.len() as int) + seq!['\n'], false)
        } else if dropped_header(l) {
            (t, false)
        } else if trimmed(l).len() != 0 {
            (t + l + seq!['\n'], false)
        } else if t.len() > 0 {
            (t + seq!['\n'], true)
        } else {
            (t, false)
        }
    }
}

/// The reply skeleton of a patch: its headers, less sender, date and
/// identifier, with `Re: ` before the subject; a blank line; then every
/// later line quoted with `> `.
pub open spec fn reply_template(patch: Seq<char>) -> Seq<char> {
    reply_scan(text_lines(patch)).0
}

/// Builds the reply skeleton of `patch_contents`.
pub fn generate_patch_reply_template(patch_contents: &str) -> (r: String)
    ensures
        r@ == reply_template(patch_contents@),
{
    let lines = split_lines(patch_contents);
    let ghost ls = views(lines@);
    let mut reply_template = String::new();
    let mut in_body = false;
    let mut i: usize = 0;
    proof {
        reveal_strlit("\n");
        reveal_strlit("Subject: ");
        assert(ls.take(0) =~= Seq::<Seq<char>>::empty());
    }
    while i < lines.len()
        invariant
            i <= lines.len(),
            ls == views(lines@),
            reply_scan(ls.take(i as int)) == (reply_template@, in_body),
        decreases lines.len() - i,
    {
        proof {
            reveal_strlit("\n");
            reveal_strlit("Subject: ");
            assert(ls.take(i + 1).drop_last() =~= ls.take(i as int));
            assert(ls.take(i + 1).last() == lines@[i as int]@);
        }
        let line: &str = lines[i].as_str();
        let ghost t0 = reply_template@;
        if in_body {
            reply_template.append("> ");
            reply_template.append(line);
            reply_template.append("\n");
            assert(reply_template@ =~= t0 + "> "@ + line@ + seq!['\n']);
        } else if starts_with(line, "Subject: ") {
            let n = line.unicode_len();
            reply_template.append("Subject: Re: ");
            reply_template.append(line.substring_char(9, n));
            reply_template.append("\n");
            assert(reply_template@ =~= t0 + "Subject: Re: "@ + line@.subrange(9, n as int) + seq!['\n']);
        } else if starts_with(line, "From: ") || starts_with(line, "Date: ") || starts_with(
            line,
            "Message-Id: ",
        ) {
        } else if !trim_str(line).is_empty() {
            reply_template.append(line);
            reply_template.append("\n");
            assert(reply_template@ =~= t0 + line@ + seq!['\n']);
        } else if reply_template.as_str().unicode_len() > 0 {
            reply_template.append("\n");
            assert(reply_template@ =~= t0 + seq!['\n']);
            in_body = true;
        }
        i = i + 1;
    }
    proof {
        assert(ls.take(i as int) =~= ls);
    }
    reply_template
}

/// The reply command documented in a patch page, up to its placeholder.
pub const RE_FULL_GIT_COMMAND: &'static str = r#"(?s)git-send-email\(1\):(.*?)/path/to/YOUR_REPLY"#;

/// A long option with a value, `--name=value`.
pub const RE_LONG_OPTIONS: &'static str = r"--[^\s=]+=[^\s]+";

/// The identifier header of a raw patch.
pub const RE_MESSAGE_ID: &'static str = r#"(?m)^Message-Id: <(.*?)>"#;

/// Arguments of the reply command for a patch page: `send-email`, the
/// baseline options word by word, then the long options of the documented
/// command, in order (none where the page documents no command).
pub open spec fn git_reply_args(patch_html: Seq<char>, options: Seq<char>) -> Seq<Seq<char>> {
    seq!["send-email"@] + whitespace_words(options) + match first_group(RE_FULL_GIT_COMMAND@, patch_html) {
        Some(block) => all_matches(RE_LONG_OPTIONS@, block),
        None => Seq::empty(),
    }
}

/// The arguments given to `git` to send a reply to the patch whose page is
/// `patch_html`; the caller appends the path of the reply file.
pub fn extract_git_reply_command(patch_html: &str, git_send_email_options: &str) -> (r: Option<
    Vec<String>,
>)
    ensures
        regex_compiles(RE_FULL_GIT_COMMAND@) && regex_compiles(RE_LONG_OPTIONS@) ==> r is Some,
        r matches Some(v) ==> views(v@) == git_reply_args(patch_html@, git_send_email_options@),
{
    let mut args: Vec<String> = Vec::new();
    args.push(String::from_str("send-email"));
    let options = split_whitespace_words(git_send_email_options);
    let mut i: usize = 0;
    while i < options.len()
        invariant
            i <= options.len(),
            views(args@) == seq!["send-email"@] + views(options@).take(i as int),
        decreases options.len() - i,
    {
        let ghost before = args@;
        args.push(options[i].clone());
        proof {
            assert(views(args@) =~= views(before).push(options@[i as int]@));
            assert(views(options@).take(i + 1) =~= views(options@).take(i as int).push(options@[i as int]@));
        }
        i = i + 1;
    }
    proof {
        assert(views(options@).take(i as int) =~= views(options@));
    }
    let block = match regex_group_first(RE_FULL_GIT_COMMAND, patch_html) {
        Some(b) => b,
        None => {
            return None;
        },
    };
    match block {
        Some(full_git_command) => {
            let long_options = match regex_find_all(RE_LONG_OPTIONS, full_git_command.as_str()) {
                Some(o) => o,
                None => {
                    return None;
                },
            };
            let ghost base = views(args@);
            let mut j: usize = 0;
            while j < long_options.len()
                invariant
                    j <= long_options.len(),
                    views(args@) == base + views(long_options@).take(j as int),
                decreases long_options.len() - j,
            {
                let ghost before = args@;
                args.push(long_options[j].clone());
                proof {
                    assert(views(args@) =~= views(before).push(long_options@[j as int]@));
                    assert(views(long_options@).take(j + 1) =~= views(long_options@).take(j as int).push(long_options@[j as int]@));
                }
                j = j + 1;
            }
            proof {
                assert(views(long_options@).take(j as int) =~= views(long_options@));
            }
        },
        None => {
            proof {
                assert(views(args@) =~= views(args@) + Seq::<Seq<char>>::empty());
            }
        },
    }
    Some(args)
}

/// The identifier in the `Message-Id:` header of a raw patch.
pub fn patch_message_id(patch: &str) -> (r: Option<String>)
    ensures
        r is Some <==> regex_compiles(RE_MESSAGE_ID@) && first_group(RE_MESSAGE_ID@, patch@) is Some,
        r matches Some(s) ==> first_group(RE_MESSAGE_ID@, patch@) == Some(s@),
{
    match regex_group_first(RE_MESSAGE_ID, patch) {
        Some(m) => m,
        None => None,
    }
}

/// The reply to `patch`: its reply skeleton followed by a `Reviewed-by:`
/// trailer for `git_signature`.
pub fn reply_with_reviewed_by(patch: &str, git_signature: &str) -> (r: String)
    ensures
        r@ == reply_template(patch@) + "\nReviewed-by: "@ + git_signature@ + "\n"@,
{
    let mut reply = generate_patch_reply_template(patch);
    reply.append("\nReviewed-by: ");
    reply.append(git_signature);
    reply.append("\n");
    reply
}

/// Name of the file that holds the reply to the message `message_id`.
pub fn reply_file_name(message_id: &str) -> (r: String)
    ensures
        r@ == message_id@ + "-reply.mbx"@,
{
    let mut name = String::from_str(message_id);
    name.append("-reply.mbx");
    name
}

} // verus!
