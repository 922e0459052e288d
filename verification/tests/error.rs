use git_chai::error::{io_error_message, GitChaiError};

#[test]
fn displays_errors() {
    let git_error = GitChaiError::GitCommandError {
        command: "git status".to_string(),
        stderr: "fatal: not a git repository".to_string(),
    };
    assert_eq!(
        git_error.to_string(),
        "Git command failed: git status: fatal: not a git repository"
    );

    let io_error = GitChaiError::IoError(std::io::Error::other("test"));
    assert!(io_error.to_string().contains("IO error"));

    let parse_error = GitChaiError::ParseError("bad status".to_string());
    assert_eq!(parse_error.to_string(), "Parse error: bad status");
}

#[test]
fn io_errors_show_their_cause() {
    let io_error = GitChaiError::IoError(std::io::Error::other("disk on fire"));
    assert_eq!(io_error.to_string(), "IO error: disk on fire");
}

#[test]
fn io_error_messages_carry_the_cause() {
    assert_eq!(io_error_message("No such file or directory"), "IO error: No such file or directory");
    let e = GitChaiError::IoError(std::io::Error::new(std::io::ErrorKind::Other, "boom"));
    assert_eq!(e.to_string(), "IO error: boom");
}
