//! Settings: command-line options, the configuration file, and the
//! settings in force (command line, else file, else default).
use vstd::prelude::*;

verus! {

/// Port tried first (the next ones are probed when it is taken).
pub const DEFAULT_PORT: u16 = 17320;

/// Directory and application name used for the service's files.
pub const APP_DIR_NAME: &'static str = "x-notify-service";

/// Log level when none is set.
pub const DEFAULT_LOG_LEVEL: &'static str = "info";

/// Command-line options.
#[derive(Debug)]
pub struct Cli {
    /// URL handed over when the `x-notify://` scheme starts the service.
    pub url_arg: Option<String>,
    /// Port to listen on.
    pub port: Option<u16>,
    /// Configuration file.
    pub config: Option<String>,
    /// Log level (trace/debug/info/warn/error).
    pub log_level: Option<String>,
    /// Log directory.
    pub log_dir: Option<String>,
    /// Never show the popup; always use the system notification.
    pub no_popup: bool,
    /// AppId of the Windows fallback notification.
    pub app_id: Option<String>,
    pub cmd: Option<Command>,
}

/// Subcommands.
#[derive(Debug, Clone, Copy, PartialEq, Eq, Structural)]
pub enum Command {
    /// Register autostart and the `x-notify://` scheme, then start the service.
    Install,
    /// Remove every registration.
    Uninstall,
}

/// Settings read from the configuration file.
#[derive(Debug, Default)]
pub struct FileConfig {
    pub port: Option<u16>,
    pub log_level: Option<String>,
    pub log_dir: Option<String>,
    pub no_popup: Option<bool>,
    pub app_id: Option<String>,
}

/// Settings in force.
#[derive(Debug, Clone)]
pub struct Config {
    pub port: u16,
    pub log_level: String,
    pub log_dir: String,
    pub no_popup: bool,
    pub app_id: Option<String>,
}

pub open spec fn text_opt(s: Option<String>) -> Option<Seq<char>> {
    match s {
        Some(v) => Some(v@),
        None => None,
    }
}

/// The first value that is set: command line, then file, then `default`.
pub open spec fn pick<T>(cli: Option<T>, file: Option<T>, default: T) -> T {
    match cli {
        Some(v) => v,
        None => match file {
            Some(v) => v,
            None => default,
        },
    }
}

fn pick_text(cli: &Option<String>, file: Option<String>, default: String) -> (r: String)
    ensures
        r@ == pick(text_opt(*cli), text_opt(file), default@),
{
    match cli {
        Some(v) => v.clone(),
        None => match file {
            Some(v) => v,
            None => default,
        },
    }
}

/// The settings in force: each one from the command line, else from the
/// configuration file, else its default (`DEFAULT_PORT`, `"info"`,
/// `default_log_dir`, no app id); the popup is off when either source
/// turns it off.
pub fn resolve(cli: &Cli, file: FileConfig, default_log_dir: String) -> (r: Config)
    ensures
        r.port == pick(cli.port, file.port, DEFAULT_PORT),
        r.log_level@ == pick(text_opt(cli.log_level), text_opt(file.log_level), DEFAULT_LOG_LEVEL@),
        r.log_dir@ == pick(text_opt(cli.log_dir), text_opt(file.log_dir), default_log_dir@),
        r.no_popup == (cli.no_popup || file.no_popup == Some(true)),
        text_opt(r.app_id) == (match cli.app_id {
            Some(v) => Some(v@),
            None => text_opt(file.app_id),
        }),
{
    let port = match cli.port {
        Some(p) => p,
        None => match file.port {
            Some(p) => p,
            None => DEFAULT_PORT,
        },
    };
    let no_popup = cli.no_popup || match file.no_popup {
        Some(b) => b,
        None => false,
    };
    let log_level = pick_text(&cli.log_level, file.log_level, DEFAULT_LOG_LEVEL.to_owned());
    let log_dir = pick_text(&cli.log_dir, file.log_dir, default_log_dir);
    let app_id = match &cli.app_id {
        Some(v) => Some(v.clone()),
        None => file.app_id,
    };
    Config { port, log_level, log_dir, no_popup, app_id }
}

} // verus!
