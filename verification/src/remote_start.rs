//! Starting a server on a remote machine: how to log in there, and which commands to
//! run.

use crate::cli;
use crate::client;
use crate::server;
use crate::server::{HandshakeOutcome, HandshakePhase};
use crate::text;
use vstd::prelude::*;

verus! {

/// Where and how a server is to be started.
pub struct RemoteStartOptions {
    /// The address of the remote machine, without a port.
    pub address: String,
    pub ssh_port: u16,
    pub username: String,
    pub identity_file: Option<String>,
    /// The number of workers of the server.
    pub workers: u8,
    /// The port that the server listens on.
    pub server_port: u16,
}

/// How to log in next.
pub enum LoginStep {
    /// With the key in this file, whatever comes of it.
    IdentityFile(String),
    /// With any key of the agent, whatever comes of it.
    Agent,
    /// With a password of the user; if that fails, so does the start of the server.
    Password,
    /// The login is done.
    LoggedIn,
    /// Nothing is left to try.
    Refused,
}

/// What has been tried to log in.
#[derive(Debug, Clone, Copy, PartialEq, Eq, Structural)]
pub enum LoginStage {
    Nothing,
    IdentityFile,
    Agent,
    Password,
}

/// A login on a remote machine.
pub struct RemoteLogin {
    identity_file: Option<String>,
    stage: LoginStage,
}

impl RemoteLogin {
    /// The identity file that is still to be tried.
    pub closed spec fn identity_file(self) -> Option<Seq<char>> {
        match self.identity_file {
            Some(file) => Some(file@),
            None => None,
        }
    }

    /// What has been tried.
    pub closed spec fn stage(self) -> LoginStage {
        self.stage
    }

    /// A login of which nothing has been tried yet.
    pub fn new(identity_file: Option<String>) -> (login: Self)
        ensures
            login.stage() == LoginStage::Nothing,
            match identity_file {
                Some(file) => login.identity_file() == Some(file@),
                None => login.identity_file() is None,
            },
    {
        RemoteLogin { identity_file, stage: LoginStage::Nothing }
    }

    /// How to log in next, by whether the session is authenticated by now: with the
    /// identity file first, if there is one, then with the agent, and with a password
    /// last.
    pub fn next(&mut self, authenticated: bool) -> (step: LoginStep)
        ensures
            step is IdentityFile ==> final(self).identity_file() is None,
            step !is IdentityFile ==> final(self).identity_file() == old(self).identity_file(),
            match step {
                LoginStep::IdentityFile(file) => {
                    &&& old(self).stage() == LoginStage::Nothing
                    &&& old(self).identity_file() == Some(file@)
                    &&& final(self).stage() == LoginStage::IdentityFile
                },
                LoginStep::Agent => {
                    &&& !authenticated
                    &&& (old(self).stage() == LoginStage::Nothing && old(self).identity_file() is None)
                        || old(self).stage() == LoginStage::IdentityFile
                    &&& final(self).stage() == LoginStage::Agent
                },
                LoginStep::Password => {
                    &&& !authenticated
                    &&& old(self).stage() == LoginStage::Agent
                    &&& final(self).stage() == LoginStage::Password
                },
                LoginStep::LoggedIn => {
                    &&& authenticated
                    &&& old(self).stage() != LoginStage::Nothing || old(self).identity_file() is None
                    &&& final(self).stage() == old(self).stage()
                },
                LoginStep::Refused => {
                    &&& !authenticated
                    &&& old(self).stage() == LoginStage::Password
                    &&& final(self).stage() == old(self).stage()
                },
            },
    {
        if self.stage == LoginStage::Nothing {
            let mut identity_file: Option<String> = None;
            std::mem::swap(&mut identity_file, &mut self.identity_file);
            if let Some(file) = identity_file {
                self.stage = LoginStage::IdentityFile;
                return LoginStep::IdentityFile(file);
            }
        }
        if authenticated {
            return LoginStep::LoggedIn;
        }
        match self.stage {
            LoginStage::Nothing | LoginStage::IdentityFile => {
                self.stage = LoginStage::Agent;
                LoginStep::Agent
            },
            LoginStage::Agent => {
                self.stage = LoginStage::Password;
                LoginStep::Password
            },
            LoginStage::Password => LoginStep::Refused,
        }
    }
}

/// The address of the SSH server on the remote machine.
pub fn ssh_address(options: &RemoteStartOptions) -> (address: String)
    ensures
        address@ == cli::address_text(options.address@, options.ssh_port),
{
    cli::socket_address(options.address.as_str(), options.ssh_port)
}

/// The command that creates a file for the program and prints its name.
pub fn create_command() -> (command: String)
    ensures
        command@ == "mktemp --tmpdir deltasync.XXXXXXXX"@,
{
    "mktemp --tmpdir deltasync.XXXXXXXX".to_owned()
}

/// The name of the file that was created, from what the command printed.
pub fn created_file(output: &str) -> (file: String)
    ensures
        file@ == text::trimmed(output@),
{
    text::trim(output)
}

/// The command that writes its input to `file`.
pub fn upload_command(file: &str) -> (command: String)
    ensures
        command@ == "cat >"@ + file@,
{
    let mut command: String = "cat >".to_owned();
    command.append(file);
    command
}

/// The command that makes `file` executable.
pub fn permit_command(file: &str) -> (command: String)
    ensures
        command@ == "chmod +x "@ + file@,
{
    let mut command: String = "chmod +x ".to_owned();
    command.append(file);
    command
}

/// The command that runs `file` as a server which detaches itself, removes its file and
/// serves one client.
pub open spec fn server_command_text(
    file: Seq<char>,
    server_port: u16,
    secret: Seq<char>,
    workers: u8,
) -> Seq<char> {
    file + " --server -d -e -o --port \""@ + text::decimal(server_port as nat) + "\" --secret \""@
        + secret + "\" -w "@ + text::decimal(workers as nat)
}

/// The command runs the very file, and holds its arguments in full: taken apart at its
/// quotes, the first quoted argument is the port and the second one is the secret, and
/// the number of workers ends it.
pub proof fn law_command_holds_its_arguments(
    file: Seq<char>,
    server_port: u16,
    secret: Seq<char>,
    workers: u8,
)
    requires
        !secret.contains('"'),
    ensures
        ({
            let command = server_command_text(file, server_port, secret, workers);
            let parts = text::fields(command.skip(file.len() as int), '"');
            &&& command.take(file.len() as int) == file
            &&& parts.len() == 5
            &&& parts[0] == " --server -d -e -o --port "@
            &&& text::decimal_value(parts[1]) == server_port
            &&& parts[1] == text::decimal(server_port as nat)
            &&& parts[2] == " --secret "@
            &&& parts[3] == secret
            &&& parts[4] == " -w "@ + text::decimal(workers as nat)
            &&& text::decimal_value(parts[4].skip(4)) == workers
        }),
{
    let command = server_command_text(file, server_port, secret, workers);
    let quote = seq!['"'];
    let port = text::decimal(server_port as nat);
    let number = text::decimal(workers as nat);
    reveal_strlit(" --server -d -e -o --port \"");
    reveal_strlit(" --server -d -e -o --port ");
    reveal_strlit("\" --secret \"");
    reveal_strlit(" --secret ");
    reveal_strlit("\" -w ");
    reveal_strlit(" -w ");
    let first = " --server -d -e -o --port "@;
    let third = " --secret "@;
    let last = " -w "@ + number;
    text::law_decimal_reads_back(server_port as nat);
    text::law_decimal_reads_back(workers as nat);
    assert(" --server -d -e -o --port \""@ =~= first + quote);
    assert("\" --secret \""@ =~= quote + third + quote);
    assert("\" -w "@ =~= quote + " -w "@);
    let one = first;
    let two = one + quote + port;
    let three = two + quote + third;
    let four = three + quote + secret;
    let five = four + quote + last;
    assert(command.skip(file.len() as int) =~= five);
    assert(command.take(file.len() as int) =~= file);
    assert(!first.contains('"'));
    assert(!port.contains('"'));
    assert(!third.contains('"'));
    assert(!last.contains('"')) by {
        assert forall|i: int| 0 <= i < last.len() implies last[i] != '"' by {
            if i >= 4 {
                assert(last[i] == number[i - 4]);
            }
        }
    }
    text::law_fields_take_text_apart(Seq::empty(), '"', first);
    text::law_fields_take_text_apart(one, '"', port);
    text::law_fields_take_text_apart(two, '"', third);
    text::law_fields_take_text_apart(three, '"', secret);
    text::law_fields_take_text_apart(four, '"', last);
    assert(last.skip(4) =~= number);
}

/// The command holds any secret character by character, between its second pair of quotes,
/// and nothing but the number of workers after it.
pub proof fn law_command_holds_any_secret(
    file: Seq<char>,
    server_port: u16,
    secret: Seq<char>,
    workers: u8,
)
    ensures
        ({
            let command = server_command_text(file, server_port, secret, workers);
            let empty = server_command_text(file, server_port, Seq::empty(), workers);
            let at = file.len() + 27 + text::decimal(server_port as nat).len() + 12;
            &&& command.len() == empty.len() + secret.len()
            &&& command.take(at as int) == empty.take(at as int)
            &&& command.subrange(at as int, (at + secret.len()) as int) == secret
            &&& command.skip((at + secret.len()) as int) == empty.skip(at as int)
        }),
{
    let command = server_command_text(file, server_port, secret, workers);
    let empty = server_command_text(file, server_port, Seq::empty(), workers);
    let at = file.len() + 27 + text::decimal(server_port as nat).len() + 12;
    reveal_strlit(" --server -d -e -o --port \"");
    reveal_strlit("\" --secret \"");
    assert(command.take(at as int) =~= empty.take(at as int));
    assert(command.subrange(at as int, (at + secret.len()) as int) =~= secret);
    assert(command.skip((at + secret.len()) as int) =~= empty.skip(at as int));
}

/// The command that runs `file` as a server which detaches itself, removes its file and
/// serves one client.
pub fn server_command(file: &str, server_port: u16, secret: &str, workers: u8) -> (command: String)
    ensures
        command@ == server_command_text(file@, server_port, secret@, workers),
{
    let mut command: String = file.to_owned();
    command.append(" --server -d -e -o --port \"");
    text::push_decimal(&mut command, server_port as u64);
    command.append("\" --secret \"");
    command.append(secret);
    command.append("\" -w ");
    text::push_decimal(&mut command, workers as u64);
    command
}

/// An ASCII letter or digit.
pub open spec fn alphanumeric(c: char) -> bool {
    'a' <= c <= 'z' || 'A' <= c <= 'Z' || '0' <= c <= '9'
}

/// The number of characters of a random secret.
pub const SECRET_SIZE: usize = 30;

/// Whether `secret` can be a random secret.
pub open spec fn random_secret(secret: Seq<char>) -> bool {
    &&& secret.len() == SECRET_SIZE
    &&& forall|i: int| 0 <= i < secret.len() ==> alphanumeric(#[trigger] secret[i])
}

/// Calls `Alphanumeric.sample_string` of the crate `rand` with the generator of the
/// thread. The claim is that the string has `len` characters, each of them an ASCII
/// letter or digit; which ones is left to chance.
#[verifier::external_body]
fn sample_alphanumeric(len: usize) -> (sample: String)
    requires
        len <= isize::MAX,
    ensures
        sample@.len() == len,
        forall|i: int| 0 <= i < sample@.len() ==> alphanumeric(#[trigger] sample@[i]),
{
    rand::distributions::DistString::sample_string(
        &rand::distributions::Alphanumeric,
        &mut rand::thread_rng(),
        len,
    )
}

/// A random secret, and the command that runs `file` as a server which knows it.
pub fn start_command(file: &str, server_port: u16, workers: u8) -> (start: (String, String))
    ensures
        random_secret(start.0@),
        start.1@ == server_command_text(file@, server_port, start.0@, workers),
{
    let secret = sample_alphanumeric(SECRET_SIZE);
    let command = server_command(file, server_port, secret.as_str(), workers);
    (secret, command)
}

/// A random secret has 30 characters, each of them an ASCII letter or digit.
pub proof fn law_random_secret_is_long(secret: Seq<char>, i: int)
    requires
        random_secret(secret),
        0 <= i < secret.len(),
    ensures
        secret.len() == 30,
        'a' <= secret[i] <= 'z' || 'A' <= secret[i] <= 'Z' || '0' <= secret[i] <= '9',
{
    assert(alphanumeric(secret[i]));
}

/// A server that is started by the command, with the secret that stands between the quotes
/// there, accepts a client that was handed the random secret.
pub proof fn law_started_server_accepts_client(
    file: Seq<char>,
    server_port: u16,
    secret: Seq<char>,
    workers: u8,
)
    requires
        random_secret(secret),
    ensures
        ({
            let command = server_command_text(file, server_port, secret, workers);
            let theirs = text::fields(command.skip(file.len() as int), '"')[3];
            let message = client::secret_message(secret);
            &&& server::handshake_step(theirs, HandshakePhase::SecretLen, message.take(1)) == (
                HandshakePhase::Secret(SECRET_SIZE as nat),
                HandshakeOutcome::Continue,
            )
            &&& server::handshake_step(
                theirs,
                HandshakePhase::Secret(SECRET_SIZE as nat),
                message.skip(1),
            ) == (HandshakePhase::Version, HandshakeOutcome::Acknowledge)
        }),
{
    law_random_secret_is_sendable(secret);
    law_command_holds_its_arguments(file, server_port, secret, workers);
    client::law_secret_message_is_whole(secret);
    let message = client::secret_message(secret);
    assert(message.take(1)[0] == message[0]);
}

/// A random secret is short enough to be sent in the handshake, and stands in the
/// command as it is: it has no quote, no space and nothing else that a shell reads as
/// more than itself.
pub proof fn law_random_secret_is_sendable(secret: Seq<char>)
    requires
        random_secret(secret),
    ensures
        vstd::utf8::encode_utf8(secret).len() == SECRET_SIZE,
        !secret.contains('"'),
        !secret.contains('$'),
        !secret.contains('`'),
        !secret.contains('\\'),
        !secret.contains(' '),
{
    assert(vstd::utf8::is_ascii_chars(secret)) by {
        assert forall|i: int| 0 <= i < secret.len() implies 0 <= #[trigger] secret[i] as nat
            <= 127 by {
            assert(alphanumeric(secret[i]));
        }
    }
    vstd::utf8::is_ascii_chars_encode_utf8(secret);
}

} // verus!
