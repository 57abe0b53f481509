//! Command line of the server.

use vstd::prelude::*;
use crate::text::{parse_number, same};
#[allow(unused_imports)]
use crate::text::number;

verus! {

/// What the server is told on its command line.
#[derive(Clone, Copy, Debug, PartialEq, Eq, Structural)]
pub struct Settings {
    /// TCP port of the control connection, and UDP port of the video.
    pub port: u16,
    /// Number of the monitor to stream.
    pub monitor_index: usize,
    /// Bitrate of the video in kilobits per second.
    pub bitrate_kbps: u32,
    /// Frames per second.
    pub fps: u32,
    /// Frames from one keyframe to the next.
    pub keyframe_interval: u32,
    /// List the monitors and do nothing else.
    pub show_monitors: bool,
    /// Stream over a USB tunnel instead of the network.
    pub usb: bool,
}

/// What the server is to do.
#[derive(Clone, Debug)]
pub enum Command {
    /// Stream, with these settings.
    Serve(Settings),
    /// List the monitors.
    ListMonitors,
    /// Show how the server is called.
    Help,
    /// Complain about an argument that is not known.
    Unknown(String),
}

/// See `Command`.
pub enum CommandView {
    Serve(Settings),
    ListMonitors,
    Help,
    Unknown(Seq<char>),
}

impl View for Command {
    type V = CommandView;

    open spec fn view(&self) -> CommandView {
        match self {
            Command::Serve(settings) => CommandView::Serve(*settings),
            Command::ListMonitors => CommandView::ListMonitors,
            Command::Help => CommandView::Help,
            Command::Unknown(arg) => CommandView::Unknown(arg@),
        }
    }
}

/// The options.
#[derive(Clone, Copy, Debug, PartialEq, Eq, Structural)]
pub enum Flag {
    Bind,
    Port,
    Monitor,
    Bitrate,
    Fps,
    KeyframeInterval,
    ListMonitors,
    Usb,
    Help,
    Unknown,
}

/// The option that an argument names.
pub open spec fn flag_of(arg: Seq<char>) -> Flag {
    if arg == "--bind"@ {
        Flag::Bind
    } else if arg == "--port"@ || arg == "-p"@ {
        Flag::Port
    } else if arg == "--monitor"@ || arg == "-m"@ {
        Flag::Monitor
    } else if arg == "--bitrate"@ || arg == "-b"@ {
        Flag::Bitrate
    } else if arg == "--fps"@ {
        Flag::Fps
    } else if arg == "--keyframe-interval"@ {
        Flag::KeyframeInterval
    } else if arg == "--list-monitors"@ {
        Flag::ListMonitors
    } else if arg == "--usb"@ {
        Flag::Usb
    } else if arg == "--help"@ || arg == "-h"@ {
        Flag::Help
    } else {
        Flag::Unknown
    }
}

fn flag(arg: &str) -> (r: Flag)
    ensures
        r == flag_of(arg@),
{
    if same(arg, "--bind") {
        Flag::Bind
    } else if same(arg, "--port") || same(arg, "-p") {
        Flag::Port
    } else if same(arg, "--monitor") || same(arg, "-m") {
        Flag::Monitor
    } else if same(arg, "--bitrate") || same(arg, "-b") {
        Flag::Bitrate
    } else if same(arg, "--fps") {
        Flag::Fps
    } else if same(arg, "--keyframe-interval") {
        Flag::KeyframeInterval
    } else if same(arg, "--list-monitors") {
        Flag::ListMonitors
    } else if same(arg, "--usb") {
        Flag::Usb
    } else if same(arg, "--help") || same(arg, "-h") {
        Flag::Help
    } else {
        Flag::Unknown
    }
}

/// The settings without any argument.
pub open spec fn default_settings() -> Settings {
    Settings {
        port: 5666,
        monitor_index: 0,
        bitrate_kbps: 8000,
        fps: 60,
        keyframe_interval: 60,
        show_monitors: false,
        usb: false,
    }
}

impl Default for Settings {
    fn default() -> (r: Self)
        ensures
            r == default_settings(),
    {
        Settings {
            port: 5666,
            monitor_index: 0,
            bitrate_kbps: 8000,
            fps: 60,
            keyframe_interval: 60,
            show_monitors: false,
            usb: false,
        }
    }
}

/// The value that follows an option: what stands there, where that is a number of
/// at most `max`, or else `current`.
pub open spec fn value_or(args: Seq<Seq<char>>, max: nat, current: nat) -> nat {
    if args.len() < 2 {
        current
    } else {
        match number(args[1], max) {
            Some(v) => v,
            None => current,
        }
    }
}

/// What is left of the arguments behind an option and its value.
pub open spec fn behind_value(args: Seq<Seq<char>>) -> Seq<Seq<char>> {
    if args.len() < 2 {
        seq![]
    } else {
        args.skip(2)
    }
}

/// What arguments come to, read from left to right over the given settings. The
/// first argument that asks for help, or that is not known, ends it.
pub open spec fn command_for(args: Seq<Seq<char>>, s: Settings) -> CommandView
    decreases args.len(),
{
    if args.len() == 0 {
        if s.show_monitors {
            CommandView::ListMonitors
        } else {
            CommandView::Serve(s)
        }
    } else {
        let behind = args.skip(1);
        match flag_of(args[0]) {
            Flag::Bind => command_for(behind_value(args), s),
            Flag::Port => command_for(
                behind_value(args),
                Settings { port: value_or(args, u16::MAX as nat, s.port as nat) as u16, ..s },
            ),
            Flag::Monitor => command_for(
                behind_value(args),
                Settings {
                    monitor_index: value_or(
                        args,
                        usize::MAX as nat,
                        s.monitor_index as nat,
                    ) as usize,
                    ..s
                },
            ),
            Flag::Bitrate => command_for(
                behind_value(args),
                Settings {
                    bitrate_kbps: value_or(args, u32::MAX as nat, s.bitrate_kbps as nat) as u32,
                    ..s
                },
            ),
            Flag::Fps => command_for(
                behind_value(args),
                Settings { fps: value_or(args, u32::MAX as nat, s.fps as nat) as u32, ..s },
            ),
            Flag::KeyframeInterval => command_for(
                behind_value(args),
                Settings {
                    keyframe_interval: value_or(
                        args,
                        u32::MAX as nat,
                        s.keyframe_interval as nat,
                    ) as u32,
                    ..s
                },
            ),
            Flag::ListMonitors => command_for(behind, Settings { show_monitors: true, ..s }),
            Flag::Usb => command_for(behind, Settings { usb: true, ..s }),
            Flag::Help => CommandView::Help,
            Flag::Unknown => CommandView::Unknown(args[0]),
        }
    }
}

/// The texts of arguments.
pub open spec fn texts(args: Seq<String>) -> Seq<Seq<char>> {
    Seq::new(args.len(), |i: int| args[i]@)
}

/// Reads the value of the option at `at`.
fn value_at(args: &Vec<String>, at: usize, max: u64, current: u64) -> (r: u64)
    requires
        at < args.len(),
        current <= max,
    ensures
        r == value_or(texts(args@).skip(at as int), max as nat, current as nat),
        r <= max,
{
    let ghost rest = texts(args@).skip(at as int);
    if args.len() - at < 2 {
        return current;
    }
    assert(rest[1] == args@[at + 1]@);
    match parse_number(args[at + 1].as_str(), max) {
        Some(v) => v,
        None => current,
    }
}

/// Reads the arguments of the server (without its own name before them).
pub fn parse_args(args: &Vec<String>) -> (r: Command)
    ensures
        r@ == command_for(texts(args@), default_settings()),
{
    let mut s: Settings = Settings::default();
    let mut i: usize = 0;
    let n: usize = args.len();
    let ghost all = texts(args@);
    proof {
        assert(all.skip(0) =~= all);
    }
    while i < n
        invariant
            n == args@.len(),
            i <= n,
            all == texts(args@),
            command_for(all, default_settings()) == command_for(all.skip(i as int), s),
        decreases n - i,
    {
        let ghost rest = all.skip(i as int);
        let next: usize = if n - i < 2 { n } else { i + 2 };
        proof {
            assert(rest[0] == args@[i as int]@);
            assert(rest.skip(1) =~= all.skip(i + 1));
            assert(behind_value(rest) =~= all.skip(next as int));
        }
        match flag(args[i].as_str()) {
            Flag::Bind => {
                i = next;
            },
            Flag::Port => {
                s.port = value_at(args, i, u16::MAX as u64, s.port as u64) as u16;
                i = next;
            },
            Flag::Monitor => {
                s.monitor_index = value_at(args, i, usize::MAX as u64, s.monitor_index as u64) as usize;
                i = next;
            },
            Flag::Bitrate => {
                s.bitrate_kbps = value_at(args, i, u32::MAX as u64, s.bitrate_kbps as u64) as u32;
                i = next;
            },
            Flag::Fps => {
                s.fps = value_at(args, i, u32::MAX as u64, s.fps as u64) as u32;
                i = next;
            },
            Flag::KeyframeInterval => {
                s.keyframe_interval = value_at(args, i, u32::MAX as u64, s.keyframe_interval as u64) as u32;
                i = next;
            },
            Flag::ListMonitors => {
                s.show_monitors = true;
                i = i + 1;
            },
            Flag::Usb => {
                s.usb = true;
                i = i + 1;
            },
            Flag::Help => {
                return Command::Help;
            },
            Flag::Unknown => {
                return Command::Unknown(args[i].clone());
            },
        }
    }
    if s.show_monitors {
        Command::ListMonitors
    } else {
        Command::Serve(s)
    }
}

proof fn lemma_two_in_front(first: Seq<char>, second: Seq<char>, rest: Seq<Seq<char>>)
    ensures
        ({
            let args = seq![first, second] + rest;
            &&& args.len() >= 2 && args[0] == first && args[1] == second
            &&& behind_value(args) == rest
        }),
{
    let args = seq![first, second] + rest;
    assert(args.skip(2) =~= rest);
}

proof fn lemma_one_in_front(first: Seq<char>, rest: Seq<Seq<char>>)
    ensures
        ({
            let args = seq![first] + rest;
            &&& args.len() >= 1 && args[0] == first
            &&& args.skip(1) == rest
            &&& rest.len() == 0 ==> behind_value(args) == Seq::<Seq<char>>::empty()
        }),
{
    let args = seq![first] + rest;
    assert(args.skip(1) =~= rest);
}

proof fn lemma_flag_names()
    ensures
        flag_of("--bind"@) == Flag::Bind,
        flag_of("--port"@) == Flag::Port,
        flag_of("-p"@) == Flag::Port,
        flag_of("--monitor"@) == Flag::Monitor,
        flag_of("-m"@) == Flag::Monitor,
        flag_of("--bitrate"@) == Flag::Bitrate,
        flag_of("-b"@) == Flag::Bitrate,
        flag_of("--fps"@) == Flag::Fps,
        flag_of("--keyframe-interval"@) == Flag::KeyframeInterval,
        flag_of("--list-monitors"@) == Flag::ListMonitors,
        flag_of("--usb"@) == Flag::Usb,
        flag_of("--help"@) == Flag::Help,
        flag_of("-h"@) == Flag::Help,
{
    reveal_strlit("--bind");
    reveal_strlit("--port");
    reveal_strlit("-p");
    reveal_strlit("--monitor");
    reveal_strlit("-m");
    reveal_strlit("--bitrate");
    reveal_strlit("-b");
    reveal_strlit("--fps");
    reveal_strlit("--keyframe-interval");
    reveal_strlit("--list-monitors");
    reveal_strlit("--usb");
    reveal_strlit("--help");
    reveal_strlit("-h");
    assert("--bind"@.len() == 6);
    assert("--port"@.len() == 6);
    assert("-p"@.len() == 2);
    assert("--monitor"@.len() == 9);
    assert("-m"@.len() == 2);
    assert("--bitrate"@.len() == 9);
    assert("-b"@.len() == 2);
    assert("--fps"@.len() == 5);
    assert("--keyframe-interval"@.len() == 19);
    assert("--list-monitors"@.len() == 15);
    assert("--usb"@.len() == 5);
    assert("--help"@.len() == 6);
    assert("-h"@.len() == 2);
    assert("--bind"@[2] != "--port"@[2]);
    assert("--bind"@[2] != "--help"@[2]);
    assert("--port"@[2] != "--help"@[2]);
    assert("-p"@[1] != "-m"@[1]);
    assert("-p"@[1] != "-b"@[1]);
    assert("-p"@[1] != "-h"@[1]);
    assert("--monitor"@[2] != "--bitrate"@[2]);
    assert("-m"@[1] != "-b"@[1]);
    assert("-m"@[1] != "-h"@[1]);
    assert("-b"@[1] != "-h"@[1]);
    assert("--fps"@[2] != "--usb"@[2]);
}

/// What each option does in front of other arguments: it changes the one setting that
/// it stands for, where its value is a number that the setting can hold, and leaves the
/// others to the arguments behind it.
pub proof fn lemma_options_in_front(value: Seq<char>, rest: Seq<Seq<char>>, s: Settings)
    ensures
        command_for(seq!["--port"@, value] + rest, s) == command_for(
            rest,
            Settings {
                port: match number(value, u16::MAX as nat) {
                    Some(n) => n as u16,
                    None => s.port,
                },
                ..s
            },
        ),
        command_for(seq!["--port"@], s) == command_for(Seq::empty(), s),
        command_for(seq!["-p"@, value] + rest, s) == command_for(
            rest,
            Settings {
                port: match number(value, u16::MAX as nat) {
                    Some(n) => n as u16,
                    None => s.port,
                },
                ..s
            },
        ),
        command_for(seq!["-p"@], s) == command_for(Seq::empty(), s),
        command_for(seq!["--monitor"@, value] + rest, s) == command_for(
            rest,
            Settings {
                monitor_index: match number(value, usize::MAX as nat) {
                    Some(n) => n as usize,
                    None => s.monitor_index,
                },
                ..s
            },
        ),
        command_for(seq!["--monitor"@], s) == command_for(Seq::empty(), s),
        command_for(seq!["-m"@, value] + rest, s) == command_for(
            rest,
            Settings {
                monitor_index: match number(value, usize::MAX as nat) {
                    Some(n) => n as usize,
                    None => s.monitor_index,
                },
                ..s
            },
        ),
        command_for(seq!["-m"@], s) == command_for(Seq::empty(), s),
        command_for(seq!["--bitrate"@, value] + rest, s) == command_for(
            rest,
            Settings {
                bitrate_kbps: match number(value, u32::MAX as nat) {
                    Some(n) => n as u32,
                    None => s.bitrate_kbps,
                },
                ..s
            },
        ),
        command_for(seq!["--bitrate"@], s) == command_for(Seq::empty(), s),
        command_for(seq!["-b"@, value] + rest, s) == command_for(
            rest,
            Settings {
                bitrate_kbps: match number(value, u32::MAX as nat) {
                    Some(n) => n as u32,
                    None => s.bitrate_kbps,
                },
                ..s
            },
        ),
        command_for(seq!["-b"@], s) == command_for(Seq::empty(), s),
        command_for(seq!["--fps"@, value] + rest, s) == command_for(
            rest,
            Settings {
                fps: match number(value, u32::MAX as nat) {
                    Some(n) => n as u32,
                    None => s.fps,
                },
                ..s
            },
        ),
        command_for(seq!["--fps"@], s) == command_for(Seq::empty(), s),
        command_for(seq!["--keyframe-interval"@, value] + rest, s) == command_for(
            rest,
            Settings {
                keyframe_interval: match number(value, u32::MAX as nat) {
                    Some(n) => n as u32,
                    None => s.keyframe_interval,
                },
                ..s
            },
        ),
        command_for(seq!["--keyframe-interval"@], s) == command_for(Seq::empty(), s),
        command_for(seq!["--bind"@, value] + rest, s) == command_for(rest, s),
        command_for(seq!["--bind"@], s) == command_for(Seq::empty(), s),
        command_for(seq!["--list-monitors"@] + rest, s) == command_for(
            rest,
            Settings { show_monitors: true, ..s },
        ),
        command_for(seq!["--usb"@] + rest, s) == command_for(rest, Settings { usb: true, ..s }),
        command_for(seq!["--help"@] + rest, s) == CommandView::Help,
        command_for(seq!["-h"@] + rest, s) == CommandView::Help,
        command_for(Seq::empty(), s) == (if s.show_monitors {
            CommandView::ListMonitors
        } else {
            CommandView::Serve(s)
        }),
{
    lemma_flag_names();
    lemma_two_in_front("--port"@, value, rest);
    lemma_one_in_front("--port"@, Seq::empty());
    assert(seq!["--port"@] + Seq::<Seq<char>>::empty() =~= seq!["--port"@]);
    lemma_two_in_front("-p"@, value, rest);
    lemma_one_in_front("-p"@, Seq::empty());
    assert(seq!["-p"@] + Seq::<Seq<char>>::empty() =~= seq!["-p"@]);
    lemma_two_in_front("--monitor"@, value, rest);
    lemma_one_in_front("--monitor"@, Seq::empty());
    assert(seq!["--monitor"@] + Seq::<Seq<char>>::empty() =~= seq!["--monitor"@]);
    lemma_two_in_front("-m"@, value, rest);
    lemma_one_in_front("-m"@, Seq::empty());
    assert(seq!["-m"@] + Seq::<Seq<char>>::empty() =~= seq!["-m"@]);
    lemma_two_in_front("--bitrate"@, value, rest);
    lemma_one_in_front("--bitrate"@, Seq::empty());
    assert(seq!["--bitrate"@] + Seq::<Seq<char>>::empty() =~= seq!["--bitrate"@]);
    lemma_two_in_front("-b"@, value, rest);
    lemma_one_in_front("-b"@, Seq::empty());
    assert(seq!["-b"@] + Seq::<Seq<char>>::empty() =~= seq!["-b"@]);
    lemma_two_in_front("--fps"@, value, rest);
    lemma_one_in_front("--fps"@, Seq::empty());
    assert(seq!["--fps"@] + Seq::<Seq<char>>::empty() =~= seq!["--fps"@]);
    lemma_two_in_front("--keyframe-interval"@, value, rest);
    lemma_one_in_front("--keyframe-interval"@, Seq::empty());
    assert(seq!["--keyframe-interval"@] + Seq::<Seq<char>>::empty() =~= seq!["--keyframe-interval"@]);
    lemma_two_in_front("--bind"@, value, rest);
    lemma_one_in_front("--bind"@, Seq::empty());
    assert(seq!["--bind"@] + Seq::<Seq<char>>::empty() =~= seq!["--bind"@]);
    lemma_one_in_front("--list-monitors"@, rest);
    lemma_one_in_front("--usb"@, rest);
    lemma_one_in_front("--help"@, rest);
    lemma_one_in_front("-h"@, rest);
}

/// An argument that names no option is complained about, whatever stands behind it.
pub proof fn lemma_other_arguments(arg: Seq<char>, rest: Seq<Seq<char>>, s: Settings)
    requires
        arg != "--bind"@,
        arg != "--port"@,
        arg != "-p"@,
        arg != "--monitor"@,
        arg != "-m"@,
        arg != "--bitrate"@,
        arg != "-b"@,
        arg != "--fps"@,
        arg != "--keyframe-interval"@,
        arg != "--list-monitors"@,
        arg != "--usb"@,
        arg != "--help"@,
        arg != "-h"@,
    ensures
        command_for(seq![arg] + rest, s) == CommandView::Unknown(arg),
{
    lemma_one_in_front(arg, rest);
}

/// The texts of arguments are those of each of them, in their order.
pub proof fn lemma_texts(args: Seq<String>, i: int)
    requires
        0 <= i < args.len(),
    ensures
        texts(args).len() == args.len(),
        texts(args)[i] == args[i]@,
{
}

} // verus!
