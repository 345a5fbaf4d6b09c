//! What the program makes of its arguments, and how a server admits clients.

use crate::common::StatusCode;
use crate::text;
use crate::utils;
use vstd::prelude::*;

verus! {

/// The longest secret, in bytes: its length is sent as one byte.
pub const MAX_SECRET_SIZE: usize = 255;

/// Why the program cannot do what its arguments ask for.
#[derive(Debug, Clone, Copy, PartialEq, Eq, Structural)]
pub enum ArgumentError {
    SecretTooLong,
    UnknownUser,
    MissingSource,
}

impl ArgumentError {
    /// The text that a user is shown.
    pub open spec fn text(self) -> Seq<char> {
        match self {
            ArgumentError::SecretTooLong => "The secret cannot exceed 255 characters"@,
            ArgumentError::UnknownUser => "Failed to get current username"@,
            ArgumentError::MissingSource => "Missing source file"@,
        }
    }

    /// The text that a user is shown.
    pub fn message(&self) -> (message: String)
        ensures
            message@ == self.text(),
    {
        match self {
            ArgumentError::SecretTooLong => "The secret cannot exceed 255 characters".to_owned(),
            ArgumentError::UnknownUser => "Failed to get current username".to_owned(),
            ArgumentError::MissingSource => "Missing source file".to_owned(),
        }
    }
}

/// What an argument says, or else `default`.
pub open spec fn or_default(argument: Option<String>, default: Seq<char>) -> Seq<char> {
    match argument {
        Some(a) => a@,
        None => default,
    }
}

/// What is given is taken as it is, and the default only if nothing is given.
pub proof fn law_argument_is_taken_as_given(argument: Option<String>, default: Seq<char>)
    ensures
        argument matches Some(a) ==> or_default(argument, default) == a@,
        argument is None ==> or_default(argument, default) == default,
{
}

/// The secret of the connection: the empty one if none is given.
pub fn secret(argument: Option<String>) -> (secret: Result<String, ArgumentError>)
    ensures
        match secret {
            Ok(s) => {
                &&& s@ == or_default(argument, Seq::empty())
                &&& vstd::utf8::encode_utf8(s@).len() <= MAX_SECRET_SIZE
            },
            Err(e) => {
                &&& e == ArgumentError::SecretTooLong
                &&& vstd::utf8::encode_utf8(or_default(argument, Seq::empty())).len()
                    > MAX_SECRET_SIZE
            },
        },
{
    let secret: String = match argument {
        Some(s) => s,
        None => String::new(),
    };
    if secret.as_str().as_bytes().len() > MAX_SECRET_SIZE {
        Err(ArgumentError::SecretTooLong)
    } else {
        Ok(secret)
    }
}

/// A host and a port, as they are written in an address.
pub open spec fn address_text(host: Seq<char>, port: u16) -> Seq<char> {
    host + ":"@ + text::decimal(port as nat)
}

/// An address begins with the host in full, and after its last colon it has the port.
pub proof fn law_address_holds_host_and_port(host: Seq<char>, port: u16)
    ensures
        ({
            let parts = text::fields(address_text(host, port), ':');
            &&& address_text(host, port).take(host.len() as int) == host
            &&& address_text(host, port)[host.len() as int] == ':'
            &&& parts == text::fields(host, ':').push(text::decimal(port as nat))
            &&& text::decimal_value(parts.last()) == port
        }),
{
    reveal_strlit(":");
    let number = text::decimal(port as nat);
    text::law_decimal_reads_back(port as nat);
    assert(address_text(host, port) =~= host + seq![':'] + number);
    assert(address_text(host, port).take(host.len() as int) =~= host);
    assert(!number.contains(':'));
    text::law_fields_take_text_apart(host, ':', number);
}

/// The address of a port on a host.
pub fn socket_address(host: &str, port: u16) -> (address: String)
    ensures
        address@ == address_text(host@, port),
{
    let mut address: String = host.to_owned();
    address.append(":");
    text::push_decimal(&mut address, port as u64);
    address
}

/// The host that a server listens on, or that a client connects to: if none is given, a
/// server listens on all interfaces, and a client connects to the machine it runs on.
pub fn host(ip: Option<String>, server: bool) -> (host: String)
    ensures
        host@ == or_default(
            ip,
            if server {
                "0.0.0.0"@
            } else {
                "127.0.0.1"@
            },
        ),
{
    match ip {
        Some(ip) => ip,
        None => if server {
            "0.0.0.0".to_owned()
        } else {
            "127.0.0.1".to_owned()
        },
    }
}

/// The user to log in as on a remote machine: the one given, or else the current one.
pub fn remote_user(argument: Option<String>, current: Option<String>) -> (user: Result<
    String,
    ArgumentError,
>)
    ensures
        match user {
            Ok(u) => u@ == (match argument {
                Some(a) => a@,
                None => current->0@,
            }) && (argument is Some || current is Some),
            Err(e) => e == ArgumentError::UnknownUser && argument is None && current is None,
        },
{
    match argument {
        Some(user) => Ok(user),
        None => match current {
            Some(user) => Ok(user),
            None => Err(ArgumentError::UnknownUser),
        },
    }
}

/// The number of workers on a remote machine: as given, or else as many as here.
pub fn remote_workers(argument: Option<u8>, workers: u8) -> (n: u8)
    ensures
        n == (match argument {
            Some(a) => a,
            None => workers,
        }),
{
    match argument {
        Some(n) => n,
        None => workers,
    }
}

/// Why a client has no paths to work on.
pub enum PathError<E> {
    Argument(ArgumentError),
    /// The current directory is not known.
    CurrentDir(E),
}

/// The absolute path of an argument, or why it has none.
pub open spec fn argument_path<E>(argument: Seq<char>, current_dir: Result<String, E>) -> Result<
    Seq<char>,
    E,
> {
    if utils::rooted(argument) {
        Ok(utils::cleaned(argument))
    } else {
        match current_dir {
            Ok(dir) => Ok(utils::absolute(dir@, argument)),
            Err(e) => Err(e),
        }
    }
}

/// A path that is absolute needs no current directory; any other is taken from there, and
/// cannot be had without it. What comes out is absolute if the current directory is.
pub proof fn law_path_is_taken_from_current_dir<E>(
    argument: Seq<char>,
    current_dir: Result<String, E>,
)
    ensures
        argument_path(argument, current_dir) is Err <==> !utils::rooted(argument) && current_dir
            is Err,
        utils::rooted(argument) ==> argument_path(argument, current_dir) == Ok::<Seq<char>, E>(
            utils::cleaned(argument),
        ),
        argument_path(argument, current_dir) matches Err(e) ==> current_dir matches Err(d) && d
            == e,
        current_dir matches Ok(dir) ==> argument_path(argument, current_dir) == Ok::<
            Seq<char>,
            E,
        >(utils::absolute(dir@, argument)),
        (current_dir matches Ok(dir) && utils::rooted(dir@)) ==> (argument_path(
            argument,
            current_dir,
        ) matches Ok(path) && utils::rooted(path)),
{
    if current_dir is Ok && utils::rooted(current_dir->Ok_0@) {
        utils::law_absolute_path_is_absolute(current_dir->Ok_0@, argument);
    }
}

/// The absolute paths of the source here and of the destination on the server, which is
/// the same as the source if none is given. The current directory is what it was when
/// each of them was looked at.
pub fn sync_paths<E>(
    src: Option<String>,
    dest: Option<String>,
    src_dir: Result<String, E>,
    dest_dir: Result<String, E>,
) -> (paths: Result<(String, String), PathError<E>>)
    ensures
        match src {
            None => paths == Err::<(String, String), PathError<E>>(
                PathError::Argument(ArgumentError::MissingSource),
            ),
            Some(s) => match argument_path(s@, src_dir) {
                Err(e) => paths == Err::<(String, String), PathError<E>>(PathError::CurrentDir(e)),
                Ok(source) => match dest {
                    None => paths matches Ok((s, d)) && s@ == source && d@ == source,
                    Some(d) => match argument_path(d@, dest_dir) {
                        Err(e) => paths == Err::<(String, String), PathError<E>>(
                            PathError::CurrentDir(e),
                        ),
                        Ok(destination) => paths matches Ok((s, d)) && s@ == source && d@
                            == destination,
                    },
                },
            },
        },
{
    let src: String = match src {
        None => {
            return Err(PathError::Argument(ArgumentError::MissingSource));
        },
        Some(src) => src,
    };
    let source: String = match utils::absolute_path(src.as_str(), src_dir) {
        Err(e) => {
            return Err(PathError::CurrentDir(e));
        },
        Ok(path) => path,
    };
    match dest {
        None => {
            let destination = source.clone();
            Ok((source, destination))
        },
        Some(dest) => match utils::absolute_path(dest.as_str(), dest_dir) {
            Err(e) => Err(PathError::CurrentDir(e)),
            Ok(destination) => Ok((source, destination)),
        },
    }
}

/// The place for the one client that a server works for at a time.
pub struct ClientSlot {
    busy: bool,
}

impl ClientSlot {
    /// Whether a client is being served.
    pub closed spec fn busy(self) -> bool {
        self.busy
    }

    /// A place that is free.
    pub fn new() -> (slot: Self)
        ensures
            !slot.busy(),
    {
        ClientSlot { busy: false }
    }

    /// Admits a client that has connected, unless another one is being served: then it is
    /// refused with this status.
    pub fn enter(&mut self) -> (admitted: Result<(), StatusCode>)
        ensures
            final(self).busy(),
            match admitted {
                Ok(_) => !old(self).busy(),
                Err(status) => old(self).busy() && status == StatusCode::ClientAlreadyConnected,
            },
    {
        if self.busy {
            Err(StatusCode::ClientAlreadyConnected)
        } else {
            self.busy = true;
            Ok(())
        }
    }

    /// Frees the place after a client has been served.
    pub fn release(&mut self)
        ensures
            !final(self).busy(),
    {
        self.busy = false;
    }
}

} // verus!
