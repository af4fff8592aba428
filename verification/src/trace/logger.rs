use vstd::prelude::*;
use vstd::string::*;
use crate::trace::level::{reset_code, Level};

verus! {

/// Decides which lines are logged, and writes them.
pub struct Logger {
    level: u8,
    color: bool,
}

/// The line that is logged for `msg` at `level`: the name of the level in
/// brackets, a space, and the message between the colour of the level and the
/// reset sequence where colours are on.
pub open spec fn log_line(level: Level, color: bool, msg: Seq<char>) -> Seq<char> {
    if color {
        seq!['['] + level.name() + seq![']', ' '] + level.color_code() + msg + reset_code()
    } else {
        seq!['['] + level.name() + seq![']', ' '] + msg
    }
}

impl Default for Logger {
    fn default() -> (r: Self)
        ensures
            r.threshold() == Level::Debug.rank(),
            r.colored(),
    {
        Self { level: 3, color: true }
    }
}

impl Logger {
    /// The highest rank that is logged.
    pub closed spec fn threshold(&self) -> u8 {
        self.level
    }

    /// Whether lines are coloured.
    pub closed spec fn colored(&self) -> bool {
        self.color
    }

    /// Whether a line at `level` is logged: its rank is at most the
    /// threshold.
    pub open spec fn logs(&self, level: Level) -> bool {
        level.rank() <= self.threshold()
    }

    /// Whether lines are coloured.
    pub fn uses_color(&self) -> (r: bool)
        ensures
            r == self.colored(),
    {
        self.color
    }

    /// Creates a new [`Logger`] with level [`Level::Debug`] and color enabled.
    pub fn new() -> (r: Self)
        ensures
            r.threshold() == Level::Debug.rank(),
            r.colored(),
    {
        Self { level: 3, color: true }
    }

    /// Sets the log level to `level`
    pub fn level(&mut self, level: Level) -> (r: &mut Self)
        ensures
            r.threshold() == level.rank(),
            r.colored() == old(self).colored(),
            *final(self) == *final(r),
    {
        self.level = level.as_u8();
        self
    }

    /// En/disabled color in logging
    pub fn color(&mut self, color: bool) -> (r: &mut Self)
        ensures
            r.threshold() == old(self).threshold(),
            r.colored() == color,
            *final(self) == *final(r),
    {
        self.color = color;
        self
    }

    /// The line for `msg` with `level` if that level or a lower one is
    /// enabled, `None` if not. A coloured line at [`Level::Off`] does not
    /// exist.
    pub fn log(&self, level: Level, msg: &str) -> (r: Option<String>)
        requires
            !(level is Off && self.colored()),
        ensures
            match r {
                Some(line) => self.logs(level) && line@ == log_line(level, self.colored(), msg@),
                None => !self.logs(level),
            },
    {
        if level.as_u8() > self.level {
            return None;
        }
        let mut line = String::new();
        line.push('[');
        line.append(level.as_str());
        line.push(']');
        line.push(' ');
        if self.color {
            line.append(level.get_color());
        }
        line.append(msg);
        if self.color {
            line.append("\x1b[0m");
        }
        proof {
            assert(line@ =~= log_line(level, self.colored(), msg@));
        }
        Some(line)
    }

    /// Error log. ([`Level::Error`])
    pub fn error(&self, msg: &str) -> (r: Option<String>)
        ensures
            match r {
                Some(line) => self.logs(Level::Error) && line@ == log_line(
                    Level::Error,
                    self.colored(),
                    msg@,
                ),
                None => !self.logs(Level::Error),
            },
    {
        self.log(Level::Error, msg)
    }

    /// Info log. ([`Level::Info`])
    pub fn info(&self, msg: &str) -> (r: Option<String>)
        ensures
            match r {
                Some(line) => self.logs(Level::Info) && line@ == log_line(
                    Level::Info,
                    self.colored(),
                    msg@,
                ),
                None => !self.logs(Level::Info),
            },
    {
        self.log(Level::Info, msg)
    }

    /// Debug log. ([`Level::Debug`])
    pub fn debug(&self, msg: &str) -> (r: Option<String>)
        ensures
            match r {
                Some(line) => self.logs(Level::Debug) && line@ == log_line(
                    Level::Debug,
                    self.colored(),
                    msg@,
                ),
                None => !self.logs(Level::Debug),
            },
    {
        self.log(Level::Debug, msg)
    }
}

} // verus!
