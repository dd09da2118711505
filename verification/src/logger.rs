//! The logger's state and rules: whether it is on, at which level, which
//! messages pass, and the line written for each.
use vstd::prelude::*;
use crate::text::{chars_of, extend_chars, string_from_chars};

verus! {

/// The level of a message: `Debug` is more verbose than `Info`.
#[derive(Clone, Copy, Debug, PartialEq, Eq, Structural)]
pub enum Level {
    Debug,
    Info,
}

/// The number of a level (lower is more verbose).
pub open spec fn level_num(l: Level) -> u8 {
    match l {
        Level::Debug => 1,
        Level::Info => 2,
    }
}

/// The number of a logger that is off.
pub const LEVEL_OFF: u8 = 255;

/// The number of a level.
pub fn level_to_u8(l: Level) -> (n: u8)
    ensures
        n == level_num(l),
{
    match l {
        Level::Debug => 1,
        Level::Info => 2,
    }
}

/// The state of the logger: on or off, the current level's number, and
/// the last line it wrote.
#[derive(Debug)]
pub struct Logger {
    enabled: bool,
    level: u8,
    last: Option<String>,
}

impl Logger {
    /// Whether the logger was turned on.
    pub closed spec fn is_on(self) -> bool {
        self.enabled
    }

    /// The current level's number ([`LEVEL_OFF`] when off).
    pub closed spec fn level_number(self) -> u8 {
        self.level
    }

    /// The last line written, if any.
    pub closed spec fn last_line(self) -> Option<Seq<char>> {
        crate::types::opt_str_view(self.last)
    }

    /// A logger that is off.
    pub fn new() -> (l: Self)
        ensures
            !l.is_on(),
            l.level_number() == LEVEL_OFF,
            l.last_line() is None,
    {
        Logger { enabled: false, level: LEVEL_OFF, last: None }
    }

    /// Turns the logger on or off. On, the level is `Debug` when `rds_log`
    /// (the `RDS_LOG` setting, if any) is `debug` in any case, else `Info`;
    /// off, the level is off.
    pub fn init(&mut self, enabled: bool, rds_log: Option<&str>)
        ensures
            final(self).is_on() == enabled,
            final(self).level_number() == if !enabled {
                LEVEL_OFF
            } else if rds_log matches Some(v) && crate::text::ascii_lowercase(v@) == "debug"@ {
                1u8
            } else {
                2u8
            },
            final(self).last_line() == old(self).last_line(),
    {
        self.enabled = enabled;
        if enabled {
            let lvl = match rds_log {
                Some(v) => {
                    let l = crate::text::to_ascii_lowercase(v);
                    if crate::text::str_eq(l.as_str(), "debug") {
                        Level::Debug
                    } else {
                        Level::Info
                    }
                },
                None => Level::Info,
            };
            self.level = level_to_u8(lvl);
        } else {
            self.level = LEVEL_OFF;
        }
    }

    /// Whether logging is on at some level.
    pub fn enabled(&self) -> (b: bool)
        ensures
            b == (self.is_on() && self.level_number() != LEVEL_OFF),
    {
        self.enabled && self.level != LEVEL_OFF
    }

    /// The current level, if any.
    pub fn level(&self) -> (r: Option<Level>)
        ensures
            r == if self.level_number() == 1 {
                Some(Level::Debug)
            } else if self.level_number() == 2 {
                Some(Level::Info)
            } else {
                None::<Level>
            },
    {
        if self.level == 1 {
            Some(Level::Debug)
        } else if self.level == 2 {
            Some(Level::Info)
        } else {
            None
        }
    }

    /// Whether a message at level `at` passes: the logger is on and the
    /// level is at least as important as the current one.
    pub fn should_log(&self, at: Level) -> (b: bool)
        ensures
            b == (self.is_on() && level_num(at) >= self.level_number()),
    {
        if !self.enabled {
            return false;
        }
        level_to_u8(at) >= self.level
    }

    /// Records the line `[rds::<tag>] <msg>` and gives it to be written.
    fn write(&mut self, tag: &str, msg: &str) -> (line: String)
        ensures
            line@ == "[rds::"@ + tag@ + "] "@ + msg@,
            final(self).last_line() == Some(line@),
            final(self).is_on() == old(self).is_on(),
            final(self).level_number() == old(self).level_number(),
    {
        let mut cs = chars_of("[rds::");
        let t = chars_of(tag);
        extend_chars(&mut cs, &t);
        let sep = chars_of("] ");
        extend_chars(&mut cs, &sep);
        let m = chars_of(msg);
        extend_chars(&mut cs, &m);
        let line = string_from_chars(&cs);
        self.last = Some(line.clone());
        line
    }

    /// The line to write for an info message, when it passes.
    pub fn info(&mut self, msg: &str) -> (r: Option<String>)
        ensures
            match r {
                Some(line) => old(self).is_on() && level_num(Level::Info) >= old(self).level_number()
                    && line@ == "[rds::"@ + "INFO"@ + "] "@ + msg@ && final(self).last_line() == Some(line@),
                None => !(old(self).is_on() && level_num(Level::Info) >= old(self).level_number())
                    && final(self).last_line() == old(self).last_line(),
            },
            final(self).is_on() == old(self).is_on(),
            final(self).level_number() == old(self).level_number(),
    {
        if self.should_log(Level::Info) {
            Some(self.write("INFO", msg))
        } else {
            None
        }
    }

    /// The line to write for a debug message, when it passes.
    pub fn debug(&mut self, msg: &str) -> (r: Option<String>)
        ensures
            match r {
                Some(line) => old(self).is_on() && level_num(Level::Debug) >= old(self).level_number()
                    && line@ == "[rds::"@ + "DEBUG"@ + "] "@ + msg@ && final(self).last_line() == Some(line@),
                None => !(old(self).is_on() && level_num(Level::Debug) >= old(self).level_number())
                    && final(self).last_line() == old(self).last_line(),
            },
            final(self).is_on() == old(self).is_on(),
            final(self).level_number() == old(self).level_number(),
    {
        if self.should_log(Level::Debug) {
            Some(self.write("DEBUG", msg))
        } else {
            None
        }
    }

    /// The last line written, if any.
    pub fn test_last_log(&self) -> (r: Option<String>)
        ensures
            crate::types::opt_str_view(r) == self.last_line(),
    {
        crate::types::clone_opt_string(&self.last)
    }
}

} // verus!
