//! What the command line asks for.
use crate::text::{decimal, push_decimal, push_signed, signed_decimal};
use vstd::prelude::*;

verus! {

/// How a run is configured.
#[derive(Clone, Copy)]
pub struct Options {
    /// Present without waiting for the vertical blank.
    pub tearing: bool,
    /// Cover the whole screen.
    pub fullscreen: bool,
    /// Render off screen, report and leave.
    pub selftest: bool,
}

/// Whether one of the arguments is `flag`.
pub open spec fn has_flag(args: Seq<String>, flag: Seq<char>) -> bool {
    exists|i: int| 0 <= i < args.len() && (#[trigger] args[i])@ == flag
}

/// The options that the arguments ask for.
pub open spec fn requested(args: Seq<String>) -> Options {
    Options {
        tearing: has_flag(args, "--tearing"@),
        fullscreen: has_flag(args, "--fullscreen"@),
        selftest: has_flag(args, "--selftest"@),
    }
}

/// What the display mode is called in titles and reports.
pub open spec fn mode_text(fullscreen: bool) -> Seq<char> {
    if fullscreen {
        "fullscreen"@
    } else {
        "windowed"@
    }
}

/// `true` or `false`.
pub open spec fn bool_text(b: bool) -> Seq<char> {
    if b {
        "true"@
    } else {
        "false"@
    }
}

/// Whether one of the arguments is `flag`.
fn any_argument(args: &Vec<String>, flag: &str) -> (found: bool)
    ensures
        found == has_flag(args@, flag@),
{
    let wanted: String = String::from_str(flag);
    let mut i: usize = 0;
    while i < args.len()
        invariant
            i <= args.len(),
            wanted@ == flag@,
            forall|k: int| 0 <= k < i ==> (#[trigger] args@[k])@ != flag@,
        decreases args.len() - i,
    {
        if args[i] == wanted {
            return true;
        }
        i = i + 1;
    }
    false
}

/// Reads the options out of the arguments. Arguments that are not options are
/// passed over.
pub fn parse_options(args: &Vec<String>) -> (options: Options)
    ensures
        options == requested(args@),
{
    Options {
        tearing: any_argument(args, "--tearing"),
        fullscreen: any_argument(args, "--fullscreen"),
        selftest: any_argument(args, "--selftest"),
    }
}

/// What the display mode is called in titles and reports.
pub fn mode_name(fullscreen: bool) -> (name: &'static str)
    ensures
        name@ == mode_text(fullscreen),
        fullscreen ==> name@ == "fullscreen"@,
        !fullscreen ==> name@ == "windowed"@,
{
    if fullscreen {
        "fullscreen"
    } else {
        "windowed"
    }
}

fn bool_name(b: bool) -> (name: &'static str)
    ensures
        name@ == bool_text(b),
{
    if b {
        "true"
    } else {
        "false"
    }
}

impl Options {
    /// Whether presents wait for the vertical blank.
    pub open spec fn waits_for_vsync(self) -> bool {
        !self.tearing
    }

    /// Whether presents wait for the vertical blank.
    pub fn vsync(&self) -> (vsync: bool)
        ensures
            vsync == self.waits_for_vsync(),
            vsync == !self.tearing,
    {
        !self.tearing
    }

    /// The line that opens a run on a screen of the given size.
    pub open spec fn banner_text(self, width: int, height: int) -> Seq<char> {
        "latency-agent: screen "@ + signed_decimal(width) + "x"@ + signed_decimal(height)
            + ", mode="@ + mode_text(self.fullscreen) + ", tearing="@ + bool_text(self.tearing)
            + ", vsync="@ + bool_text(self.waits_for_vsync())
    }

    /// The line that opens a run on a screen of the given size.
    pub fn banner(&self, width: i32, height: i32) -> (line: String)
        ensures
            line@ == self.banner_text(width as int, height as int),
            line@ == "latency-agent: screen "@ + signed_decimal(width as int) + "x"@
                + signed_decimal(height as int) + (if self.fullscreen {
                ", mode="@ + "fullscreen"@
            } else {
                ", mode="@ + "windowed"@
            }) + (if self.tearing {
                ", tearing="@ + "true"@ + ", vsync="@ + "false"@
            } else {
                ", tearing="@ + "false"@ + ", vsync="@ + "true"@
            }),
    {
        let mut line: String = String::from_str("latency-agent: screen ");
        push_signed(&mut line, width as i64);
        line.append("x");
        push_signed(&mut line, height as i64);
        line.append(", mode=");
        line.append(mode_name(self.fullscreen));
        line.append(", tearing=");
        line.append(bool_name(self.tearing));
        line.append(", vsync=");
        line.append(bool_name(self.vsync()));
        proof {
            let mode = mode_text(self.fullscreen);
            let tearing = bool_text(self.tearing);
            let vsync = bool_text(!self.tearing);
            let start = "latency-agent: screen "@ + signed_decimal(width as int) + "x"@
                + signed_decimal(height as int);
            assert(line@ =~= start + (", mode="@ + mode) + (", tearing="@ + tearing + ", vsync="@
                + vsync));
        }
        line
    }
}

/// The line that tells the size of the client area.
pub open spec fn client_area_text(width: nat, height: nat) -> Seq<char> {
    "client area: "@ + decimal(width) + "x"@ + decimal(height)
}

/// The line that tells the size of the client area.
pub fn client_area_line(width: u32, height: u32) -> (line: String)
    ensures
        line@ == client_area_text(width as nat, height as nat),
        line@ == "client area: "@ + decimal(width as nat) + "x"@ + decimal(height as nat),
{
    let mut line: String = String::from_str("client area: ");
    push_decimal(&mut line, width as u64);
    line.append("x");
    push_decimal(&mut line, height as u64);
    line
}

/// The line that closes a run.
pub open spec fn farewell_text(clicks: nat, frames: nat) -> Seq<char> {
    "done. "@ + decimal(clicks) + " clicks logged, "@ + decimal(frames) + " frames logged."@
}

/// The line that closes a run.
pub fn farewell(clicks: u32, frames: u32) -> (line: String)
    ensures
        line@ == farewell_text(clicks as nat, frames as nat),
        line@ == "done. "@ + decimal(clicks as nat) + " clicks logged, "@ + decimal(frames as nat)
            + " frames logged."@,
{
    let mut line: String = String::from_str("done. ");
    push_decimal(&mut line, clicks as u64);
    line.append(" clicks logged, ");
    push_decimal(&mut line, frames as u64);
    line.append(" frames logged.");
    line
}

/// The message for an error that ends the run.
pub fn fatal_message(error: &str) -> (message: String)
    ensures
        message@ == "latency-agent fatal error:\n"@ + error@,
{
    let mut message: String = String::from_str("latency-agent fatal error:\n");
    message.append(error);
    message
}

/// An option is on if and only if its flag is among the arguments; nothing else
/// has a bearing on it.
pub proof fn law_options_are_the_flags(args: Seq<String>)
    ensures
        ({
            let texts = args.map_values(|arg: String| arg@);
            &&& requested(args).tearing <==> texts.contains("--tearing"@)
            &&& requested(args).fullscreen <==> texts.contains("--fullscreen"@)
            &&& requested(args).selftest <==> texts.contains("--selftest"@)
            &&& requested(args).waits_for_vsync() <==> !texts.contains("--tearing"@)
        }),
{
    lemma_flag_is_among(args, "--tearing"@);
    lemma_flag_is_among(args, "--fullscreen"@);
    lemma_flag_is_among(args, "--selftest"@);
}

proof fn lemma_flag_is_among(args: Seq<String>, flag: Seq<char>)
    ensures
        has_flag(args, flag) <==> args.map_values(|arg: String| arg@).contains(flag),
{
    let texts = args.map_values(|arg: String| arg@);
    if has_flag(args, flag) {
        let i = choose|i: int| 0 <= i < args.len() && (#[trigger] args[i])@ == flag;
        assert(texts[i] == flag);
    }
    if texts.contains(flag) {
        let i = choose|i: int| 0 <= i < texts.len() && texts[i] == flag;
        assert(args[i]@ == flag);
    }
}

} // verus!
