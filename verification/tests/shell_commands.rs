use suspense::listing::Listing;
use suspense::shell_format::format_command;
use suspense::shell_paths::{analyze, finds, normalize, paths_asked_about, Scope};
use suspense::shell_words::{substitution, tokens, Token};

/// A project with `spec/a.pi`, `spec/b/c.pi`, and `src/main.rs`.
fn project() -> (String, Listing) {
    let dir = "/tmp/project".to_string();
    let path = |name: &str| format!("{dir}/{name}");
    let listing = Listing {
        files: ["spec/a.pi", "spec/b/c.pi", "src/main.rs"]
            .iter()
            .map(|name| path(name))
            .collect(),
        folders: vec![
            "/tmp".to_string(),
            dir.clone(),
            path("spec"),
            path("spec/b"),
            path("src"),
        ],
    };
    (dir, listing)
}

fn files(command: &str) -> Vec<(String, bool)> {
    let (dir, listing) = project();
    analyze(command, &dir, &listing)
        .files
        .into_iter()
        .map(|(path, edited)| {
            let shown = path
                .strip_prefix(&format!("{dir}/"))
                .unwrap_or(&path)
                .to_string();
            (shown, edited)
        })
        .collect()
}

fn read(path: &str) -> (String, bool) {
    (path.to_string(), false)
}

fn written(path: &str) -> (String, bool) {
    (path.to_string(), true)
}

#[test]
fn short_commands_stay_on_one_line() {
    assert_eq!(format_command("  ls -la | head  "), "ls -la | head");
}

#[test]
fn chained_commands_get_a_line_each() {
    assert_eq!(
        format_command(
            "cd crates/app && cargo build --release 2>&1 | tail -20 || echo \"failed && more\"; git status"
        ),
        "cd crates/app\n  && cargo build --release 2>&1\n  | tail -20\n  || echo \"failed && more\";\ngit status"
    );
}

#[test]
fn subshells_substitutions_and_comments_are_kept_whole() {
    assert_eq!(
        format_command(
            "(cd vendor && make) && echo \"$(git rev-parse HEAD | cut -c1-8)\" # note: a && b"
        ),
        "(cd vendor && make)\n  && echo \"$(git rev-parse HEAD | cut -c1-8)\" # note: a && b"
    );
}

#[test]
fn heredoc_bodies_are_left_as_written() {
    let command = "cat <<'EOF' > notes.txt && echo written\nkeep && this | as is\nEOF\ngit add notes.txt && git commit -m notes";
    assert_eq!(
        format_command(command),
        "cat <<'EOF' > notes.txt && echo written\nkeep && this | as is\nEOF\ngit add notes.txt\n  && git commit -m notes"
    );
}

#[test]
fn existing_continuations_are_folded_into_the_layout() {
    assert_eq!(
        format_command("cargo test --workspace --all-features \\\n  && cargo clippy --workspace -- -D warnings"),
        "cargo test --workspace --all-features\n  && cargo clippy --workspace -- -D warnings"
    );
}

/// Laying out moves only white space and backslashes.
#[test]
fn laying_out_keeps_what_is_written() {
    let ink = |text: &str| -> String {
        text.chars()
            .filter(|c| !c.is_whitespace() && *c != '\\')
            .collect()
    };
    for command in [
        "a;b ;; c |& d && e || f &\n  g \\\n h",
        "for x in 1 2 3; do echo \"$x; $y\" && cat <<-EOF\n\tbody && more\n\tEOF\ndone | sort | uniq -c",
        "echo 'unclosed && quote | with ; everything in it, long enough to be laid out",
        "echo a \\",
        "   # only a comment && nothing else, but long enough to be laid out anyway   ",
    ] {
        assert_eq!(ink(&format_command(command)), ink(command), "{command}");
    }
}

#[test]
fn long_commands_without_operators_stay_whole() {
    let command = "x".repeat(61);
    assert_eq!(format_command(&command), command);
    assert_eq!(
        format_command("case $x in a) one ;; b) two ;; esac; echo done with everything now"),
        "case $x in a) one ;; b) two ;; esac;\necho done with everything now"
    );
}

#[test]
fn reads_the_files_commands_name() {
    let (dir, _) = project();
    assert_eq!(files("cat spec/a.pi"), [read("spec/a.pi")]);
    assert_eq!(
        files("head -n 5 spec/a.pi | tail -2"),
        [read("spec/a.pi")]
    );
    assert_eq!(files("sed -n '1,5p' spec/a.pi"), [read("spec/a.pi")]);
    assert_eq!(
        files("grep -n foo spec/a.pi src/main.rs"),
        [read("spec/a.pi"), read("src/main.rs")]
    );
    assert_eq!(files("cd spec && less b/c.pi"), [read("spec/b/c.pi")]);
    assert_eq!(
        files("diff spec/a.pi ./spec/b/../a.pi"),
        [read("spec/a.pi"), read("spec/a.pi")]
    );
    assert_eq!(
        files("awk '{print}' < spec/a.pi"),
        [read("spec/a.pi")]
    );
    let absolute = format!("{dir}/spec/a.pi");
    assert_eq!(
        files(&format!("rg x \"{absolute}\"")),
        [read("spec/a.pi")]
    );
}

#[test]
fn edits_and_writes() {
    assert_eq!(
        files("sed -i 's/x/y/' spec/a.pi"),
        [written("spec/a.pi")]
    );
    assert_eq!(
        files("echo x >> spec/new.pi"),
        [written("spec/new.pi")]
    );
    assert_eq!(
        files("printf x | tee -a spec/a.pi > /dev/null"),
        [written("spec/a.pi")]
    );
    assert_eq!(
        files("cat > spec/new.pi <<'EOF'\ncat spec/a.pi\nEOF\ncat src/main.rs"),
        [written("spec/new.pi"), read("src/main.rs")]
    );
    assert_eq!(
        files("cp src/main.rs spec/b"),
        [read("src/main.rs"), written("spec/b/main.rs")]
    );
    assert_eq!(
        files("mv spec/a.pi spec/d.pi 2>&1"),
        [read("spec/a.pi"), written("spec/d.pi")]
    );
}

/// A target built from a variable or a substitution, or a pattern, isn't
/// guessed at; nor is a word that only looks like a file.
#[test]
fn skips_what_it_cant_work_out() {
    assert!(files("cat $FILE spec/$(ls spec | head -1)").is_empty());
    assert!(files("cd \"$DIR\" && cat a.pi").is_empty());
    assert!(files("cat spec/*.pi").is_empty());
    assert_eq!(
        files("grep spec/a.pi src/main.rs"),
        [read("src/main.rs")]
    );
    assert!(files("echo 'cat spec/a.pi' # cat spec/a.pi").is_empty());
}

/// A folder or pattern a command takes files in by is a scope, whose
/// files count when the output names them.
#[test]
fn scopes_name_files_in_the_output() {
    let (dir, listing) = project();
    let path = |name: &str| format!("{dir}/{name}");
    let scopes = analyze("grep -rn foo spec", &dir, &listing).scopes;
    assert_eq!(scopes.len(), 1);
    assert_eq!(scopes[0].dir, path("spec"));
    assert_eq!(scopes[0].base, dir);
    let scope: &Scope = &scopes[0];
    assert_eq!(
        scope.named_in("spec/b/c.pi:3:foo", &listing),
        Some(path("spec/b/c.pi"))
    );
    assert_eq!(
        scope.named_in("==> spec/a.pi <==", &listing),
        Some(path("spec/a.pi"))
    );
    assert_eq!(scope.named_in("src/main.rs:1:foo", &listing), None);
    assert_eq!(scope.named_in("spec/missing.pi", &listing), None);
    assert_eq!(
        analyze("cat spec/*.pi", &dir, &listing).scopes[0].dir,
        path("spec")
    );
    assert_eq!(analyze("rg foo", &dir, &listing).scopes[0].dir, dir);
    assert!(analyze("grep foo spec", &dir, &listing).scopes.is_empty());
}

#[test]
fn headings_name_files() {
    let (dir, listing) = project();
    let scope = Scope { dir: dir.clone(), base: dir.clone() };
    for line in ["+++ b/spec/a.pi\t2024", "--- a/spec/a.pi", "+++ spec/a.pi", "--- spec/a.pi"] {
        assert_eq!(scope.named_in(line, &listing), Some(format!("{dir}/spec/a.pi")), "{line}");
    }
    assert_eq!(scope.named_in("", &listing), None);
}

#[test]
fn normalizes_lexically() {
    assert_eq!(normalize("/a/./b/../c"), "/a/c");
    assert_eq!(normalize("/../a"), "/a");
    assert_eq!(normalize("../a"), "../a");
    assert_eq!(normalize("a/../.."), "..");
    assert_eq!(normalize("./a//b/"), "a/b");
    assert_eq!(normalize("/a/../.."), "/");
    assert_eq!(normalize("./."), "");
    assert_eq!(normalize(&normalize("x/../../y/./z/..")), normalize("x/../../y/./z/.."));
}

#[test]
fn wrappers_assignments_and_options_are_passed_over() {
    assert_eq!(files("FOO=1 sudo env /bin/cat spec/a.pi"), [read("spec/a.pi")]);
    assert_eq!(files("sort -o spec/a.pi src/main.rs"), [read("src/main.rs"), written("spec/a.pi")]);
    assert_eq!(files("cp -t spec src/main.rs"), [read("src/main.rs"), written("spec/main.rs")]);
    assert_eq!(files("cp spec/a.pi src/main.rs spec/b/"), [
        read("spec/a.pi"),
        written("spec/b/a.pi"),
        read("src/main.rs"),
        written("spec/b/main.rs"),
    ]);
    assert_eq!(files("perl -pi -e 's/a/b/' spec/a.pi"), [written("spec/a.pi")]);
    assert_eq!(files("awk -i inplace '{print}' spec/a.pi"), [written("spec/a.pi")]);
    assert_eq!(files("grep --regexp=x spec/a.pi"), [read("spec/a.pi")]);
    assert_eq!(files("jq . spec/a.pi"), [read("spec/a.pi")]);
    assert_eq!(files("cat -- spec/a.pi"), [read("spec/a.pi")]);
    assert_eq!(files("cat \"spec\"/a'.pi'"), [read("spec/a.pi")]);
    assert_eq!(files("cat spec/\\a.pi"), [read("spec/a.pi")]);
    assert!(files("cat ~/spec/a.pi `ls` ${X}").is_empty());
    assert_eq!(files("cat <<< 'x' spec/a.pi"), [read("spec/a.pi")]);
    assert_eq!(files("cd - ; cat spec/a.pi"), []);
}

#[test]
fn git_and_find_take_files_in_by_folders() {
    let (dir, listing) = project();
    let dirs = |command: &str| -> Vec<String> {
        analyze(command, &dir, &listing)
            .scopes
            .into_iter()
            .map(|scope| scope.dir)
            .collect()
    };
    assert_eq!(dirs("git diff"), [dir.clone()]);
    assert_eq!(dirs("git log -n 3 spec"), [format!("{dir}/spec")]);
    assert!(dirs("git status").is_empty());
    assert_eq!(dirs("find spec src -name '*.pi'"), [format!("{dir}/spec"), format!("{dir}/src")]);
    assert_eq!(dirs("find -name x"), [dir.clone()]);
}

/// Only the paths asked about make a difference.
#[test]
fn only_the_paths_asked_about_are_looked_up() {
    let (dir, listing) = project();
    let asked = paths_asked_about(&finds("cp src/main.rs spec/b && cat spec/a.pi > out", &dir));
    assert_eq!(asked, [
        format!("{dir}/src/main.rs"),
        format!("{dir}/spec/b"),
        format!("{dir}/spec/a.pi"),
    ]);
    let fewer = Listing {
        files: listing.files.iter().filter(|path| asked.contains(path)).cloned().collect(),
        folders: listing.folders.iter().filter(|path| asked.contains(path)).cloned().collect(),
    };
    let command = "cp src/main.rs spec/b && cat spec/a.pi > out";
    assert_eq!(
        analyze(command, &dir, &fewer).files,
        analyze(command, &dir, &listing).files
    );
}

/// However a command writes a path, it comes out written one way.
#[test]
fn paths_come_out_worked_out() {
    assert_eq!(files("cat ./spec/../spec//a.pi"), [read("spec/a.pi")]);
    assert_eq!(
        files("cd spec/b/.. && cp ./a.pi ../src/"),
        [read("spec/a.pi"), written("src/a.pi")]
    );
}

/// Quoted text is left as it is, blanks, operators and all, and so is what is
/// in a subshell.
#[test]
fn quoted_text_is_left_as_written() {
    let quoted = "'one  &&   two ; three |  four'";
    let nested = "(cd  a &&   ls ;  pwd)";
    let laid = format_command(&format!("printf %s {quoted} && {nested} && echo a long enough tail"));
    assert!(laid.contains(quoted), "{laid}");
    assert!(laid.contains(nested), "{laid}");
    assert_eq!(laid.lines().count(), 3);
}

/// The text of each word of a command, and whether it is known.
fn words(command: &str) -> Vec<(String, bool)> {
    tokens(command)
        .into_iter()
        .filter_map(|token| match token {
            Token::Word(word) => Some((word.text.into_iter().collect(), word.known)),
            _ => None,
        })
        .collect()
}

fn known(text: &str) -> (String, bool) {
    (text.to_string(), true)
}

/// A line that goes on leaves no word behind.
#[test]
fn a_continuation_is_no_word() {
    assert_eq!(
        files("grep \\\n spec/a.pi src/main.rs"),
        [read("src/main.rs")],
        "the pattern was read as a file"
    );
    assert_eq!(words("ls \\\n  a\\\nb \\\n"), [known("ls"), known("ab")]);
    assert_eq!(words("echo \"a\\\nb\""), [known("echo"), known("ab")]);
}

/// Where a substitution ends, quoted text and escapes in it passed over.
#[test]
fn substitutions_end_where_they_close() {
    let end = |text: &str| substitution(&text.chars().collect::<Vec<_>>(), 0);
    assert_eq!(end(r#"$(echo ")")"#), 11);
    assert_eq!(end(r#"$(echo ')' $(pwd)) more"#), 18);
    assert_eq!(end(r#"$(echo \)) more"#), 10);
    assert_eq!(end(r#"$(echo "$(echo ")")" x) more"#), 23);
    assert_eq!(end(r#"${a:-"}"} more"#), 9);
    assert_eq!(end("`echo \\`a\\`` more"), 12);
    assert_eq!(end("$(echo # )\n) more"), 12);
    assert_eq!(end("$name/x"), 5);
    assert_eq!(end(r"$'it\'s' more"), 8);
    assert_eq!(end("$? more"), 2);
    assert_eq!(end("$"), 1);
    assert_eq!(end("$(never"), 7);
}

/// A `$` that starts no substitution is only that.
#[test]
fn a_lone_dollar_is_itself() {
    assert_eq!(words("grep \"foo$\" spec/a.pi"), [known("grep"), known("foo$"), known("spec/a.pi")]);
    assert_eq!(files("grep \"foo$\" spec/a.pi"), [read("spec/a.pi")]);
    assert_eq!(words("cat $x"), [known("cat"), ("".to_string(), false)]);
}

/// Quotes in a substitution in quotes don't end them, and a here-string opens no
/// heredoc.
#[test]
fn nested_quotes_and_here_strings_are_laid_out() {
    let nested = r#""$(grep "a && b" "$file" | head)""#;
    let laid = format_command(&format!("echo {nested} && cat <<< word && echo one more of them"));
    assert_eq!(
        laid,
        format!("echo {nested}\n  && cat <<< word\n  && echo one more of them")
    );
    let escaped = r"$'it\'s && that'";
    let laid = format_command(&format!("echo {escaped} && echo something that makes this long enough"));
    assert_eq!(
        laid,
        format!("echo {escaped}\n  && echo something that makes this long enough")
    );
}

/// What is laid out stays as it is.
#[test]
fn laid_out_twice_is_laid_out_once() {
    for command in [
        "cargo build --release --workspace && cargo test --workspace | tee target/test.log; ls",
        "cat <<EOF > spec/a.pi && echo something long enough to be laid out\none && two\nEOF\n&& ls | wc",
        "a | b || c |& d; # a comment; with && in it \n echo one; ; echo two && ; echo three &&",
        "cat << | wc && echo a heredoc that has no delimiter is a mistake, and still; ls",
        "cat <<   ; (cd spec; ls) && echo \"$(grep 'a && b' c | head)\" && echo `ls; ls`;; ls",
    ] {
        let once = format_command(command);
        assert_ne!(once, command);
        assert_eq!(format_command(&once), once);
    }
}

/// Commands on two lines work on what each works on.
#[test]
fn lines_work_one_after_the_other() {
    let (dir, listing) = project();
    let one = analyze("cat spec/a.pi; grep -r x spec", &dir, &listing);
    let other = analyze("cat src/main.rs > spec/b/c.pi; rg x src", &dir, &listing);
    let both = analyze(
        "cat spec/a.pi; grep -r x spec\ncat src/main.rs > spec/b/c.pi; rg x src",
        &dir,
        &listing,
    );
    let mut expected = one.files.clone();
    expected.extend(other.files.clone());
    assert_eq!(both.files, expected);
    assert_eq!(one.files.len(), 1);
    assert_eq!(other.files.len(), 2);
    assert_eq!(both.scopes.len(), one.scopes.len() + other.scopes.len());
    assert_eq!(both.scopes.len(), 2);
}
