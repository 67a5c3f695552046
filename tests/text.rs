use lore_session::{
    extract_git_reply_command, extract_mbox_name_from_message_id, generate_patch_reply_template,
    patch_message_id, reply_with_reviewed_by, split_cover, split_patchset,
};

fn lines(text: &str) -> Vec<String> {
    text.lines().map(|l| l.to_string()).collect()
}

const SEP: &str = "From git@z Thu Jan  1 00:00:00 1970";

#[test]
fn mailbox_three_messages() {
    let archive = format!(
        "{SEP}\nSubject: [PATCH 0/2] first\nbody one\n-- \nsig one\n{SEP}\nSubject: [PATCH 1/2] second\nbody two\n{SEP}\nSubject: [PATCH 2/2] third\nbody three\n--\nsig three\n"
    );
    let patches = split_patchset(None, &lines(&archive));
    assert_eq!(patches.len(), 3);
    assert_eq!(patches[0], "Subject: [PATCH 0/2] first\nbody one\n-- \nsig one\n");
    assert_eq!(patches[1], "Subject: [PATCH 1/2] second\nbody two\n");
    assert_eq!(patches[2], "Subject: [PATCH 2/2] third\nbody three\n--\nsig three\n");
    assert!(patches[0].contains("first") && !patches[0].contains("second") && !patches[0].contains("third"));
    assert!(patches[1].contains("second") && !patches[1].contains("first") && !patches[1].contains("third"));
    assert!(patches[2].contains("third") && !patches[2].contains("first") && !patches[2].contains("second"));
}

#[test]
fn mailbox_unfinished_message_is_kept() {
    let patches = split_patchset(None, &lines("Subject: only\nline\n"));
    assert_eq!(patches, vec!["Subject: only\nline\n".to_string()]);
}

#[test]
fn mailbox_empty_and_headerless() {
    assert!(split_patchset(None, &Vec::new()).is_empty());
    assert!(split_patchset(None, &lines("no subject here\n--\nx\n")).is_empty());
}

#[test]
fn mailbox_cover_letter_comes_first() {
    let cover = lines("Subject: [PATCH 0/1] cover\ntext\n--\nsig\n");
    let series = lines("Subject: [PATCH 1/1] patch\ndiff\n--\nsig\n");
    let patches = split_patchset(Some(&cover), &series);
    assert_eq!(patches.len(), 2);
    assert!(patches[0].starts_with("Subject: [PATCH 0/1] cover"));
    assert!(patches[1].starts_with("Subject: [PATCH 1/1] patch"));
}

#[test]
fn cover_and_diff_split() {
    assert_eq!(split_cover("A\nB\n---\nC\nD\n"), ("A\nB\n---\n", "C\nD\n"));
}

#[test]
fn cover_without_marker() {
    assert_eq!(split_cover("A\nB\n--\nC\n"), ("A\nB\n--\nC\n", ""));
    assert_eq!(split_cover(""), ("", ""));
}

#[test]
fn cover_marker_on_first_and_first_of_two() {
    assert_eq!(split_cover("---\nrest"), ("---\n", "rest"));
    assert_eq!(split_cover("a\n---\nb\n---\nc"), ("a\n---\n", "b\n---\nc"));
    assert_eq!(split_cover("a\n----\nb"), ("a\n----\nb", ""));
}

#[test]
fn reply_template_quotes_body() {
    let t = generate_patch_reply_template("Subject: foo\nFrom: x\n\nhello\n");
    assert!(t.contains("Subject: Re: foo"));
    assert!(!t.contains("From:"));
    assert!(t.contains("> hello"));
    assert_eq!(t, "Subject: Re: foo\n\n> hello\n");
}

#[test]
fn reply_template_drops_headers_and_keeps_others() {
    let t = generate_patch_reply_template(
        "\nFrom: a\nDate: b\nMessage-Id: <c>\nSubject: [PATCH] x\nTo: d\n\nline 1\n\nline 2",
    );
    assert_eq!(t, "Subject: Re: [PATCH] x\nTo: d\n\n> line 1\n> \n> line 2\n");
}

#[test]
fn reply_template_without_blank_line() {
    assert_eq!(generate_patch_reply_template("Subject: s\nX: y"), "Subject: Re: s\nX: y\n");
    assert_eq!(generate_patch_reply_template(""), "");
}

#[test]
fn reply_with_trailer() {
    let r = reply_with_reviewed_by("Subject: foo\n\nhello\n", "A U Thor <a@b.c>");
    assert_eq!(r, "Subject: Re: foo\n\n> hello\n\nReviewed-by: A U Thor <a@b.c>\n");
}

#[test]
fn message_id_is_read() {
    let p = "Subject: x\nMessage-Id: <20240101.abc@host>\n\nbody\n";
    assert_eq!(patch_message_id(p), Some("20240101.abc@host".to_string()));
    assert_eq!(patch_message_id("Subject: x\n"), None);
}

#[test]
fn git_reply_command_with_block() {
    let html = "<pre>git-send-email(1):\n  git send-email \\\n    --in-reply-to=abc@x \\\n    --to=a@b.c \\\n    --cc=d@e.f \\\n    /path/to/YOUR_REPLY</pre>";
    let args = extract_git_reply_command(html, "--suppress-cc=all  --dry-run").unwrap();
    assert_eq!(
        args,
        vec!["send-email", "--suppress-cc=all", "--dry-run", "--in-reply-to=abc@x", "--to=a@b.c", "--cc=d@e.f"]
    );
}

#[test]
fn git_reply_command_without_block() {
    let args = extract_git_reply_command("<html>nothing</html>", "").unwrap();
    assert_eq!(args, vec!["send-email"]);
}

#[test]
fn mbox_name_from_message_id() {
    assert_eq!(
        extract_mbox_name_from_message_id("https://lore.kernel.org/amd-gfx/20240101.abc@host/"),
        "amd-gfx.20240101.abc@host.mbx"
    );
    assert_eq!(extract_mbox_name_from_message_id("http://lore.kernel.org/x/y"), "x.y.mbx");
    assert_eq!(extract_mbox_name_from_message_id(""), ".mbx");
}

#[test]
fn reply_template_whitespace_line_ends_headers() {
    assert_eq!(generate_patch_reply_template("Subject: s\n   \nbody"), "Subject: Re: s\n\n> body\n");
}

#[test]
fn reply_template_crlf_lines() {
    assert_eq!(generate_patch_reply_template("Subject: a\r\n\r\nb\r\n"), "Subject: Re: a\n\n> b\n");
}

#[test]
fn git_reply_command_spec_example() {
    let args = extract_git_reply_command(
        "<pre>git-send-email(1):\n  git send-email --in-reply-to=abc@x --to=a@b.c --cc=d@e.f /path/to/YOUR_REPLY</pre>",
        "--dry-run",
    )
    .unwrap();
    assert_eq!(args, vec!["send-email", "--dry-run", "--in-reply-to=abc@x", "--to=a@b.c", "--cc=d@e.f"]);
}

#[test]
fn git_reply_command_baseline_only() {
    let args = extract_git_reply_command("<p>git-send-email(1): no placeholder</p>", " -q  --annotate ").unwrap();
    assert_eq!(args, vec!["send-email", "-q", "--annotate"]);
}

#[test]
fn mailbox_delimiter_with_trailing_white_space() {
    let patches = split_patchset(None, &lines("Subject: a\nbody\n--\t\u{a0} \nsig\nSubject: b\nmore\n"));
    assert_eq!(patches.len(), 2);
    assert_eq!(patches[0], "Subject: a\nbody\n--\t\u{a0} \nsig\n");
    assert_eq!(patches[1], "Subject: b\nmore\n");
}

#[test]
fn reply_template_unicode_blank_line() {
    assert_eq!(generate_patch_reply_template("Subject: s\n\u{3000}\t\nbody"), "Subject: Re: s\n\n> body\n");
}

#[test]
fn reply_file_name_appends_suffix() {
    assert_eq!(lore_session::reply_file_name("abc@host"), "abc@host-reply.mbx");
}
