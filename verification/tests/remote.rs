use deltasync::cli::{
    host, remote_user, remote_workers, secret, socket_address, sync_paths, ArgumentError,
    ClientSlot, PathError,
};
use deltasync::common::StatusCode;
use deltasync::remote_start::{
    create_command, created_file, permit_command, server_command, ssh_address, start_command,
    upload_command, LoginStep, RemoteLogin, RemoteStartOptions,
};

fn some(s: &str) -> Option<String> {
    Some(s.to_string())
}

#[test]
fn secrets() {
    assert_eq!(secret(None), Ok(String::new()));
    assert_eq!(secret(some("key")), Ok("key".to_string()));
    let longest = "x".repeat(255);
    assert_eq!(secret(Some(longest.clone())), Ok(longest));
    assert_eq!(secret(Some("x".repeat(256))), Err(ArgumentError::SecretTooLong));
    assert_eq!(secret(Some("\u{e9}".repeat(128))), Err(ArgumentError::SecretTooLong));
}

#[test]
fn argument_errors_in_words() {
    assert_eq!(ArgumentError::SecretTooLong.message(), "The secret cannot exceed 255 characters");
    assert_eq!(ArgumentError::UnknownUser.message(), "Failed to get current username");
    assert_eq!(ArgumentError::MissingSource.message(), "Missing source file");
}

#[test]
fn addresses() {
    assert_eq!(host(None, true), "0.0.0.0");
    assert_eq!(host(None, false), "127.0.0.1");
    assert_eq!(host(some("10.0.0.7"), true), "10.0.0.7");
    assert_eq!(socket_address("10.0.0.7", 15000), "10.0.0.7:15000");
    assert_eq!(socket_address("example.org", 0), "example.org:0");
}

#[test]
fn remote_defaults() {
    assert_eq!(remote_user(some("me"), some("you")), Ok("me".to_string()));
    assert_eq!(remote_user(None, some("you")), Ok("you".to_string()));
    assert_eq!(remote_user(None, None), Err(ArgumentError::UnknownUser));
    assert_eq!(remote_workers(None, 8), 8);
    assert_eq!(remote_workers(Some(2), 8), 2);
}

#[test]
fn paths_of_a_client() {
    let dir = || Ok::<String, u8>("/home/me".to_string());
    let paths = sync_paths(some("a/../b"), None, dir(), dir());
    assert_eq!(paths.ok(), Some(("/home/me/b".to_string(), "/home/me/b".to_string())));
    let paths = sync_paths(some("a"), some("/srv//x"), dir(), Err(1));
    assert_eq!(paths.ok(), Some(("/home/me/a".to_string(), "/srv/x".to_string())));

    let missing = sync_paths(None, some("x"), dir(), dir());
    assert!(matches!(missing, Err(PathError::Argument(ArgumentError::MissingSource))));
    assert!(matches!(sync_paths(some("a"), None, Err(1), dir()), Err(PathError::CurrentDir(1))));
    let nowhere = sync_paths(some("/a"), some("x"), dir(), Err(2));
    assert!(matches!(nowhere, Err(PathError::CurrentDir(2))));
}

#[test]
fn one_client_at_a_time() {
    let mut slot = ClientSlot::new();
    assert_eq!(slot.enter(), Ok(()));
    assert_eq!(slot.enter(), Err(StatusCode::ClientAlreadyConnected));
    slot.release();
    assert_eq!(slot.enter(), Ok(()));
}

#[test]
fn logins_try_everything_in_order() {
    let mut login = RemoteLogin::new(some("/key"));
    assert!(matches!(login.next(false), LoginStep::IdentityFile(file) if file == "/key"));
    assert!(matches!(login.next(false), LoginStep::Agent));
    assert!(matches!(login.next(false), LoginStep::Password));
    assert!(matches!(login.next(false), LoginStep::Refused));

    let mut login = RemoteLogin::new(None);
    assert!(matches!(login.next(false), LoginStep::Agent));
    assert!(matches!(login.next(true), LoginStep::LoggedIn));

    // the identity file is tried whatever the session says
    let mut login = RemoteLogin::new(some("/key"));
    assert!(matches!(login.next(true), LoginStep::IdentityFile(_)));
    assert!(matches!(login.next(true), LoginStep::LoggedIn));
}

#[test]
fn remote_commands() {
    assert_eq!(create_command(), "mktemp --tmpdir deltasync.XXXXXXXX");
    assert_eq!(created_file("/tmp/deltasync.abcdefgh\n"), "/tmp/deltasync.abcdefgh");
    assert_eq!(upload_command("/tmp/f"), "cat >/tmp/f");
    assert_eq!(permit_command("/tmp/f"), "chmod +x /tmp/f");
    assert_eq!(
        server_command("/tmp/f", 15001, "s", 8),
        "/tmp/f --server -d -e -o --port \"15001\" --secret \"s\" -w 8"
    );
}

#[test]
fn remote_addresses() {
    let options = RemoteStartOptions {
        address: "10.0.0.7".to_string(),
        ssh_port: 22,
        username: "me".to_string(),
        identity_file: None,
        workers: 4,
        server_port: 15000,
    };
    assert_eq!(ssh_address(&options), "10.0.0.7:22");
}

#[test]
fn random_secrets() {
    let (secret, command) = start_command("/tmp/f", 15000, 3);
    assert_eq!(secret.len(), 30);
    assert!(secret.chars().all(|c| c.is_ascii_alphanumeric()));
    assert_eq!(command, server_command("/tmp/f", 15000, &secret, 3));
    let (other, _) = start_command("/tmp/f", 15000, 3);
    assert_ne!(secret, other);
}
