use vstd::prelude::*;

verus! {

/// Log levels.
/// Used to control the verbosity of logging.
///
/// | Level            | Description                       |
/// |------------------|-----------------------------------|
/// | [`Level::Off`]   | Disables all logging.             |
/// | [`Level::Error`] | For critical errors.              |
/// | [`Level::Info`]  | For general information.          |
/// | [`Level::Debug`] | For verbose debugging information.|
#[derive(Debug, Copy, Clone, PartialEq, Eq, Structural)]
pub enum Level {
    Off,
    Error,
    Info,
    Debug,
}

/// The escape sequence that ends all colouring.
pub open spec fn reset_code() -> Seq<char> {
    "\x1b[0m"@
}

impl Level {
    /// The place of the level among the levels, from `Off` at 0 to `Debug`
    /// at 3: the higher, the more is logged.
    pub open spec fn rank(self) -> u8 {
        match self {
            Level::Off => 0,
            Level::Error => 1,
            Level::Info => 2,
            Level::Debug => 3,
        }
    }

    /// The name of the level in a log line.
    pub open spec fn name(self) -> Seq<char> {
        match self {
            Level::Off => "OFF"@,
            Level::Error => "ERROR"@,
            Level::Info => "INFO"@,
            Level::Debug => "DEBUG"@,
        }
    }

    /// The escape sequence that colours the lines of the level.
    pub open spec fn color_code(self) -> Seq<char> {
        match self {
            Level::Off => Seq::empty(),
            Level::Info => "\x1b[0m"@,
            Level::Error => "\x1b[31m"@,
            Level::Debug => "\x1b[36m"@,
        }
    }

    /// The place of the level among the levels.
    pub fn as_u8(&self) -> (r: u8)
        ensures
            r == self.rank(),
    {
        match self {
            Level::Off => 0,
            Level::Error => 1,
            Level::Info => 2,
            Level::Debug => 3,
        }
    }

    /// Returns the log level as a string
    pub fn as_str(&self) -> (r: &'static str)
        ensures
            r@ == self.name(),
    {
        match self {
            Level::Off => "OFF",
            Level::Error => "ERROR",
            Level::Info => "INFO",
            Level::Debug => "DEBUG",
        }
    }

    /// Gets a color code for the log level.
    /// This is used to colorize the log output if color logging is enabled.
    /// No line is written at [`Level::Off`], so that level has no colour.
    pub fn get_color(&self) -> (r: &'static str)
        requires
            !(self is Off),
        ensures
            r@ == self.color_code(),
    {
        match self {
            Level::Off => "",
            Level::Info => "\x1b[0m",
            Level::Error => "\x1b[31m",
            Level::Debug => "\x1b[36m",
        }
    }
}

} // verus!
