use todo_plan::parse::{parse, IntIdGenerator};
use todo_plan::rename::{check_issue_name, renamed_source, RenameError};
use todo_plan::source::{PlanSource, Placement};

/// Rename `target` to `new_name` in a file holding `content`, as the command
/// does after reading it: the new file, or the message it fails with.
fn rename_in(content: &str, placement: Placement, target: &str, new_name: &str) -> Result<String, String> {
    check_issue_name(new_name).map_err(|error| error.message())?;
    let source = PlanSource::from_content(content.to_string(), placement);
    renamed_source(&source, target, new_name, 1).map_err(|error| error.message())
}

fn names_of(content: &str) -> Result<Vec<(u64, String)>, String> {
    let parsed = parse(content, &IntIdGenerator::new(1)).map_err(|error| error.message())?;
    Ok(parsed.plan.issues().values().map(|issue| (issue.id, issue.name.clone())).collect())
}

#[test]
fn duplicate_id_test_cases() {
    // An id spelled out twice is rejected.
    assert_eq!(
        names_of("- 7 first task\n- second task\n- 7 duplicate\n\n"),
        Err("in line 3: issue id `7` is already used by `first task`".to_string())
    );

    // A generated id never takes one the source claims.
    assert_eq!(
        names_of("- 25 named\n- auto\n- 1 explicit\n\n"),
        Ok(vec![(25, "named".to_string()), (2, "auto".to_string()), (1, "explicit".to_string())])
    );
}

#[test]
fn rename_test_cases() {
    // Rename issue (in-place, WholeFile).
    let file = rename_in("- task 1\n", Placement::WholeFile, "task 1", "renamed task").unwrap();
    assert_eq!(file, "- renamed task\n");

    // Only the target name is patched.
    let file = "- parent task\n  Description line\n  - child task\n- 5 numbered\n  Note of the numbered issue\n\n";
    let file = rename_in(file, Placement::WholeFile, "parent task", "**renamed** parent").unwrap();
    assert_eq!(
        file,
        "- **renamed** parent\n  Description line\n  - child task\n- 5 numbered\n  Note of the numbered issue\n\n"
    );

    // Rename a nested issue.
    let file = rename_in(&file, Placement::WholeFile, "child task", "child renamed").unwrap();
    assert_eq!(
        file,
        "- **renamed** parent\n  Description line\n  - child renamed\n- 5 numbered\n  Note of the numbered issue\n\n"
    );

    // Error: issue not found.
    assert_eq!(
        rename_in(&file, Placement::WholeFile, "nope", "x"),
        Err("issue `nope` not found".to_string())
    );

    // Error: the new name would not read back as a name.
    assert_eq!(
        rename_in(&file, Placement::WholeFile, "child renamed", "12 boom"),
        Err("invalid issue name: must not start with `12` — it would be read back as an issue id".to_string())
    );
    assert_eq!(
        rename_in(&file, Placement::WholeFile, "child renamed", ""),
        Err("invalid issue name: must not be empty".to_string())
    );
    assert_eq!(
        rename_in(&file, Placement::WholeFile, "child renamed", "[doc](notes.md)"),
        Err(
            "invalid issue name: must not open with a `[...](...)` link — it would be read back as a file reference"
                .to_string()
        )
    );

    // Renaming an issue to its own name is a no-op.
    assert_eq!(
        rename_in(&file, Placement::WholeFile, "child renamed", "child renamed"),
        Ok(file.clone())
    );

    // Error: the new name is already taken.
    assert_eq!(
        rename_in(&file, Placement::WholeFile, "child renamed", "numbered"),
        Err("issue `numbered` already exists".to_string())
    );

    // Rename inside a manifest `md todo` block.
    let manifest = "# project B\n\n```toml project\nid = \"project B\"\nname = \"project B\"\n```\n```md todo\n- task one\n```\n";
    let manifest = rename_in(manifest, Placement::CodeBlockInFile, "task one", "renamed one").unwrap();
    assert_eq!(
        manifest,
        "# project B\n\n```toml project\nid = \"project B\"\nname = \"project B\"\n```\n```md todo\n- renamed one\n```\n"
    );
}

#[test]
fn a_name_carried_by_two_issues_is_ambiguous() {
    let result = rename_in("- twin\n- twin\n", Placement::WholeFile, "twin", "single");
    assert_eq!(result, Err("issue `twin` is ambiguous; specify a unique name".to_string()));
}

#[test]
fn renaming_fails_on_a_plan_that_does_not_read() {
    let source = PlanSource::from_content("- 3 a\n- 3 b\n".to_string(), Placement::WholeFile);
    let Err(error) = renamed_source(&source, "a", "c", 1) else {
        panic!("a repeated id must be reported");
    };
    assert!(matches!(error, RenameError::Parse(_)));
    assert_eq!(error.message(), "in line 2: issue id `3` is already used by `a`");
}

#[test]
fn a_multiline_name_is_refused() {
    let error = check_issue_name("two\nlines").unwrap_err();
    assert_eq!(error.message(), "invalid issue name: must be a single line");
    let error = check_issue_name("carriage\rreturn").unwrap_err();
    assert_eq!(error.message(), "invalid issue name: must be a single line");
    assert_eq!(check_issue_name("   ").unwrap_err().message(), "invalid issue name: must not be empty");
    assert!(check_issue_name("plain name").is_ok());
    assert!(check_issue_name("**bold** name").is_ok());
    for misread in [" x", "x ", "- x"] {
        assert_eq!(
            check_issue_name(misread).unwrap_err().message(),
            "invalid issue name: it would not be read back as written",
            "{misread:?}"
        );
    }
    assert!(check_issue_name("12boom").is_ok());
}
