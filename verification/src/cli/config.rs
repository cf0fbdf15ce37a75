//! The settings of a configuration file, as far as they are a matter of
//! rules and not of reading files.
//!
//! Where the server is and where the passphrase comes from is written as
//! `type:value`, or as a bare `type` where there is nothing more to say.
//! File names in such settings are relative to the directory that holds the
//! configuration.

use crate::defs::str_eq;
use vstd::prelude::*;
use vstd::string::StringExecFns;

verus! {

/// The smallest block size that a configuration may ask for.
pub const MIN_BLOCK_SIZE: i64 = 256;

/// The largest block size that a configuration may ask for: 1 GB.
pub const MAX_BLOCK_SIZE: i64 = 1073741824;

/// Where or how to run the server.
#[derive(Clone, Debug, PartialEq, Eq)]
pub enum ServerConfig {
    /// Use the given path on the local filesystem as the server.
    Path(String),
    /// Run the given shell command as the server and talk to it on its
    /// standard input and output. If the second field is present, the
    /// command is to be run in that directory.
    Shell(String, Option<String>),
}

/// How to obtain the passphrase.
#[derive(Clone, Debug, PartialEq, Eq)]
pub enum PassphraseConfig {
    /// Ask for the passphrase on the controlling terminal.
    Prompt,
    /// Use the given string as the passphrase.
    String(String),
    /// Use the content of the named file, without trailing line ends, as the
    /// passphrase.
    File(String),
    /// Run the given shell command and use its output, without trailing line
    /// ends, as the passphrase. If the second field is present, the command
    /// is to be run in that directory.
    Shell(String, Option<String>),
}

/// The mathematical value of a `ServerConfig`.
pub enum ServerConfigView {
    Path(Seq<char>),
    Shell(Seq<char>, Option<Seq<char>>),
}

/// The mathematical value of a `PassphraseConfig`.
pub enum PassphraseConfigView {
    Prompt,
    String(Seq<char>),
    File(Seq<char>),
    Shell(Seq<char>, Option<Seq<char>>),
}

/// The characters of a string that may be missing.
pub open spec fn opt_view(s: Option<String>) -> Option<Seq<char>> {
    match s {
        Some(s) => Some(s@),
        None => None,
    }
}

impl View for ServerConfig {
    type V = ServerConfigView;

    open spec fn view(&self) -> ServerConfigView {
        match self {
            ServerConfig::Path(p) => ServerConfigView::Path(p@),
            ServerConfig::Shell(c, d) => ServerConfigView::Shell(c@, opt_view(*d)),
        }
    }
}

impl View for PassphraseConfig {
    type V = PassphraseConfigView;

    open spec fn view(&self) -> PassphraseConfigView {
        match self {
            PassphraseConfig::Prompt => PassphraseConfigView::Prompt,
            PassphraseConfig::String(s) => PassphraseConfigView::String(s@),
            PassphraseConfig::File(p) => PassphraseConfigView::File(p@),
            PassphraseConfig::Shell(c, d) => PassphraseConfigView::Shell(c@, opt_view(*d)),
        }
    }
}

/// The position of the first colon in `s`, if it holds one.
pub open spec fn colon_at(s: Seq<char>) -> Option<int>
    decreases s.len(),
{
    if s.len() == 0 {
        None
    } else if s[0] == ':' {
        Some(0int)
    } else {
        match colon_at(s.drop_first()) {
            Some(i) => Some(i + 1),
            None => None,
        }
    }
}

/// What `colon_at` finds is the first colon, and it finds nothing only where
/// there is none.
pub proof fn lemma_colon_at(s: Seq<char>)
    ensures
        match colon_at(s) {
            Some(i) => 0 <= i < s.len() && s[i] == ':' && forall|j: int|
                0 <= j < i ==> s[j] != ':',
            None => forall|j: int| 0 <= j < s.len() ==> s[j] != ':',
        },
    decreases s.len(),
{
    if s.len() > 0 && s[0] != ':' {
        let rest = s.drop_first();
        lemma_colon_at(rest);
        match colon_at(rest) {
            Some(i) => {
                assert forall|j: int| 0 <= j < i + 1 implies s[j] != ':' by {
                    if j > 0 {
                        assert(s[j] == rest[j - 1]);
                    }
                }
            },
            None => {
                assert forall|j: int| 0 <= j < s.len() implies s[j] != ':' by {
                    if j > 0 {
                        assert(s[j] == rest[j - 1]);
                    }
                }
            },
        }
    }
}

/// Splits `s` at its first colon into what stands before it and what stands
/// behind it.
pub fn split_at_colon(s: &str) -> (res: Option<(&str, &str)>)
    ensures
        match colon_at(s@) {
            Some(i) => res is Some && res->Some_0.0@ == s@.subrange(0, i) && res->Some_0.1@
                == s@.subrange(i + 1, s@.len() as int),
            None => res is None,
        },
{
    let n = s.unicode_len();
    let mut i: usize = 0;
    proof {
        lemma_colon_at(s@);
    }
    while i < n
        invariant
            i <= n,
            n == s@.len(),
            forall|j: int| 0 <= j < i ==> s@[j] != ':',
        decreases n - i,
    {
        if s.get_char(i) == ':' {
            proof {
                lemma_colon_at(s@);
            }
            return Some((s.substring_char(0, i), s.substring_char(i + 1, n)));
        }
        i += 1;
    }
    proof {
        lemma_colon_at(s@);
    }
    None
}

/// The server that the setting `s` describes, if it describes one: `path:`
/// followed by a path, or `shell:` followed by a command.
pub open spec fn server_config_of(s: Seq<char>) -> Option<ServerConfigView> {
    match colon_at(s) {
        None => None,
        Some(i) => {
            let typ = s.subrange(0, i);
            let value = s.subrange(i + 1, s.len() as int);
            if typ == "path"@ {
                Some(ServerConfigView::Path(value))
            } else if typ == "shell"@ {
                Some(ServerConfigView::Shell(value, None))
            } else {
                None
            }
        },
    }
}

/// The source of the passphrase that the setting `s` describes, if it
/// describes one: `prompt`, or `string:`, `file:` or `shell:` followed by a
/// value.
pub open spec fn passphrase_config_of(s: Seq<char>) -> Option<PassphraseConfigView> {
    if s == "prompt"@ {
        Some(PassphraseConfigView::Prompt)
    } else {
        match colon_at(s) {
            None => None,
            Some(i) => {
                let typ = s.subrange(0, i);
                let value = s.subrange(i + 1, s.len() as int);
                if typ == "string"@ {
                    Some(PassphraseConfigView::String(value))
                } else if typ == "file"@ {
                    Some(PassphraseConfigView::File(value))
                } else if typ == "shell"@ {
                    Some(PassphraseConfigView::Shell(value, None))
                } else {
                    None
                }
            },
        }
    }
}

/// `head`, `middle` and `tail` in one string.
fn message(head: &str, middle: &str, tail: &str) -> (text: String)
    ensures
        text@ == head@ + middle@ + tail@,
{
    let mut text = String::from_str(head);
    text.append(middle);
    text.append(tail);
    text
}

/// Where `path` leads when it is taken from the directory `parent`.
pub uninterp spec fn joined_path(parent: Seq<char>, path: Seq<char>) -> Seq<char>;

/// Calls `std::path::Path::join` on `parent` with `path`: the path adjoined
/// to the directory, or the path alone where it is absolute. The contract
/// names the result.
#[verifier::external_body]
fn join_path(parent: &str, path: &str) -> (joined: String)
    ensures
        joined@ == joined_path(parent@, path@),
{
    std::path::Path::new(parent).join(path).to_string_lossy().into_owned()
}

impl ServerConfig {
    /// Reads a server setting. The error says what is wrong with it.
    pub fn parse(s: &str) -> (res: Result<ServerConfig, String>)
        ensures
            match server_config_of(s@) {
                Some(config) => res is Ok && res->Ok_0@ == config,
                None => res is Err,
            },
    {
        let (typ, value) = match split_at_colon(s) {
            Some(parts) => parts,
            None => {
                let mut text = message(
                    "Invalid server config; syntax is `type:value` (write `path:",
                    s,
                    "` if you want to sync to the local path `",
                );
                text.append(s);
                text.append("`)");
                return Err(text);
            },
        };
        if str_eq(typ, "path") {
            Ok(ServerConfig::Path(value.to_owned()))
        } else if str_eq(typ, "shell") {
            Ok(ServerConfig::Shell(value.to_owned(), None))
        } else {
            let mut text = message("Invalid server config type '", typ, "' (if `");
            text.append(s);
            text.append("` is intended to be an scp-style path, write something like `shell:ssh ");
            text.append(typ);
            text.append(" ensync server '");
            text.append(value);
            text.append("'` instead)");
            Err(text)
        }
    }

    /// This setting with file names taken from the directory `parent`: a
    /// path is joined to it, and a command is to be run in it.
    pub fn relativise(self, parent: &str) -> (res: ServerConfig)
        ensures
            res@ == relativised_server(self@, parent@),
    {
        match self {
            ServerConfig::Path(suffix) => ServerConfig::Path(join_path(parent, suffix.as_str())),
            ServerConfig::Shell(command, _) => ServerConfig::Shell(
                command,
                Some(parent.to_owned()),
            ),
        }
    }
}

impl PassphraseConfig {
    /// Reads a passphrase setting. The error says what is wrong with it.
    pub fn parse(s: &str) -> (res: Result<PassphraseConfig, String>)
        ensures
            match passphrase_config_of(s@) {
                Some(config) => res is Ok && res->Ok_0@ == config,
                None => res is Err,
            },
    {
        if str_eq(s, "prompt") {
            return Ok(PassphraseConfig::Prompt);
        }
        let (typ, value) = match split_at_colon(s) {
            Some(parts) => parts,
            None => {
                return Err(
                    message(
                        "Invalid passphrase config; syntax is `type` or `type:value`, and '",
                        s,
                        "' is not a valid bare type",
                    ),
                );
            },
        };
        if str_eq(typ, "string") {
            Ok(PassphraseConfig::String(value.to_owned()))
        } else if str_eq(typ, "file") {
            Ok(PassphraseConfig::File(value.to_owned()))
        } else if str_eq(typ, "shell") {
            Ok(PassphraseConfig::Shell(value.to_owned(), None))
        } else {
            Err(message("Invalid passphrase config type '", typ, "'"))
        }
    }

    /// This setting with file names taken from the directory `parent`: a
    /// file is joined to it, and a command is to be run in it.
    pub fn relativise(self, parent: &str) -> (res: PassphraseConfig)
        ensures
            res@ == relativised_passphrase(self@, parent@),
    {
        match self {
            PassphraseConfig::Prompt => PassphraseConfig::Prompt,
            PassphraseConfig::String(s) => PassphraseConfig::String(s),
            PassphraseConfig::File(basename) => PassphraseConfig::File(
                join_path(parent, basename.as_str()),
            ),
            PassphraseConfig::Shell(command, _) => PassphraseConfig::Shell(
                command,
                Some(parent.to_owned()),
            ),
        }
    }
}

impl core::str::FromStr for ServerConfig {
    type Err = String;

    fn from_str(s: &str) -> (res: Result<Self, String>)
        ensures
            match server_config_of(s@) {
                Some(config) => res is Ok && res->Ok_0@ == config,
                None => res is Err,
            },
    {
        ServerConfig::parse(s)
    }
}

impl core::str::FromStr for PassphraseConfig {
    type Err = String;

    fn from_str(s: &str) -> (res: Result<Self, String>)
        ensures
            match passphrase_config_of(s@) {
                Some(config) => res is Ok && res->Ok_0@ == config,
                None => res is Err,
            },
    {
        PassphraseConfig::parse(s)
    }
}

/// The number of bytes of `data` that are left when line feeds and carriage
/// returns are taken from its end.
pub open spec fn stripped_len(data: Seq<u8>) -> nat
    decreases data.len(),
{
    if data.len() > 0 && (data.last() == 10 || data.last() == 13) {
        stripped_len(data.drop_last())
    } else {
        data.len()
    }
}

/// Makes a passphrase of what was read for one: line feeds and carriage
/// returns at its end are taken away, since files and the output of commands
/// often end in them without their being meant. What is left must not be
/// empty.
pub fn strip_passphrase(data: Vec<u8>) -> (res: Result<Vec<u8>, String>)
    ensures
        stripped_len(data@) > 0 ==> res is Ok && res->Ok_0@ == data@.take(
            stripped_len(data@) as int,
        ),
        stripped_len(data@) == 0 ==> res is Err,
{
    let mut data = data;
    let ghost all = data@;
    while data.len() > 0 && (data[data.len() - 1] == 10 || data[data.len() - 1] == 13)
        invariant
            data@.len() <= all.len(),
            data@ == all.take(data@.len() as int),
            stripped_len(data@) == stripped_len(all),
        decreases data.len(),
    {
        let ghost before = data@;
        data.pop();
        proof {
            assert(data@ =~= before.drop_last());
            assert(data@ =~= all.take(data@.len() as int));
        }
    }
    if data.len() == 0 {
        return Err("Password is empty".to_owned());
    }
    Ok(data)
}

/// Checks a block size against the bounds. Nothing keeps tiny or huge
/// blocks from working, but neither is of any use.
pub fn check_block_size(bs: i64) -> (res: Result<u32, String>)
    ensures
        MIN_BLOCK_SIZE <= bs <= MAX_BLOCK_SIZE ==> res == Ok::<u32, String>(bs as u32),
        !(MIN_BLOCK_SIZE <= bs <= MAX_BLOCK_SIZE) ==> res is Err,
{
    if bs < MIN_BLOCK_SIZE {
        Err("Block size too small (minimum 256)".to_owned())
    } else if bs > MAX_BLOCK_SIZE {
        Err("Block size too large (maximum 1GB)".to_owned())
    } else {
        Ok(bs as u32)
    }
}

/// The name of the directory, beside the configuration file, that holds
/// what is kept on the client for its own use.
pub const PRIVATE_DIR_NAME: &'static str = ".ensync";

/// The settings of a configuration file.
#[derive(Clone, Debug, PartialEq, Eq)]
pub struct Config {
    /// The path in the local filesystem to use as the client root.
    pub client_root: String,
    /// The path in the local filesystem of the private directory, which
    /// stands beside the configuration.
    pub private_root: String,
    /// Where or how to run the server.
    pub server: ServerConfig,
    /// The named root to use within the server storage.
    pub server_root: String,
    /// How to obtain the passphrase for the server storage.
    pub passphrase: PassphraseConfig,
    /// The block size to use for new transfers.
    pub block_size: u32,
}

/// The mathematical value of a `Config`.
pub struct ConfigView {
    pub client_root: Seq<char>,
    pub private_root: Seq<char>,
    pub server: ServerConfigView,
    pub server_root: Seq<char>,
    pub passphrase: PassphraseConfigView,
    pub block_size: u32,
}

impl View for Config {
    type V = ConfigView;

    open spec fn view(&self) -> ConfigView {
        ConfigView {
            client_root: self.client_root@,
            private_root: self.private_root@,
            server: self.server@,
            server_root: self.server_root@,
            passphrase: self.passphrase@,
            block_size: self.block_size,
        }
    }
}

/// `config` with file names taken from the directory `parent`.
pub open spec fn relativised_server(config: ServerConfigView, parent: Seq<char>) -> ServerConfigView {
    match config {
        ServerConfigView::Path(suffix) => ServerConfigView::Path(joined_path(parent, suffix)),
        ServerConfigView::Shell(command, _) => ServerConfigView::Shell(command, Some(parent)),
    }
}

/// `config` with file names taken from the directory `parent`.
pub open spec fn relativised_passphrase(
    config: PassphraseConfigView,
    parent: Seq<char>,
) -> PassphraseConfigView {
    match config {
        PassphraseConfigView::Prompt => PassphraseConfigView::Prompt,
        PassphraseConfigView::String(s) => PassphraseConfigView::String(s),
        PassphraseConfigView::File(basename) => PassphraseConfigView::File(
            joined_path(parent, basename),
        ),
        PassphraseConfigView::Shell(command, _) => PassphraseConfigView::Shell(
            command,
            Some(parent),
        ),
    }
}

/// The configuration that the settings make, read from a file in the
/// directory `parent`, if the server and passphrase settings describe
/// something and the block size is within the bounds.
pub open spec fn config_of(
    parent: Seq<char>,
    path: Seq<char>,
    server: Seq<char>,
    server_root: Seq<char>,
    passphrase: Seq<char>,
    block_size: i64,
) -> Option<ConfigView> {
    if server_config_of(server) is Some && passphrase_config_of(passphrase) is Some
        && MIN_BLOCK_SIZE <= block_size <= MAX_BLOCK_SIZE {
        Some(
            ConfigView {
                client_root: joined_path(parent, path),
                private_root: joined_path(parent, PRIVATE_DIR_NAME@),
                server: relativised_server(server_config_of(server)->Some_0, parent),
                server_root,
                passphrase: relativised_passphrase(
                    passphrase_config_of(passphrase)->Some_0,
                    parent,
                ),
                block_size: block_size as u32,
            },
        )
    } else {
        None
    }
}

impl Config {
    /// Makes the configuration of the settings found under `[general]` in a
    /// configuration file in the directory `parent`. The error says which
    /// setting is wrong, and how.
    pub fn from_settings(
        parent: &str,
        path: &str,
        server: &str,
        server_root: &str,
        passphrase: &str,
        block_size: i64,
    ) -> (res: Result<Config, String>)
        ensures
            match config_of(parent@, path@, server@, server_root@, passphrase@, block_size) {
                Some(config) => res is Ok && res->Ok_0@ == config,
                None => res is Err,
            },
    {
        let server = match ServerConfig::parse(server) {
            Ok(server) => server.relativise(parent),
            Err(e) => {
                return Err(e);
            },
        };
        let passphrase = match PassphraseConfig::parse(passphrase) {
            Ok(passphrase) => passphrase.relativise(parent),
            Err(e) => {
                return Err(e);
            },
        };
        let block_size = match check_block_size(block_size) {
            Ok(bs) => bs,
            Err(e) => {
                return Err(e);
            },
        };
        Ok(
            Config {
                client_root: join_path(parent, path),
                private_root: join_path(parent, PRIVATE_DIR_NAME),
                server,
                server_root: server_root.to_owned(),
                passphrase,
                block_size,
            },
        )
    }
}

} // verus!
