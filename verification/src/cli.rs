//! The command line and what the progress display shows.
use vstd::prelude::*;
use crate::error::Error;
use crate::downloader::DownloadStatus;
use crate::text::{chars_equal, chars_of, decimal, parse_i32, parse_i32_text, push_decimal};
use std::collections::VecDeque;
use vstd::string::*;

verus! {

/// What the user asked for on the command line.
pub struct Arguments {
    pub url: String,
    /// Where to save the download, as given.
    pub dest_path: Option<String>,
    pub help: bool,
    pub version: bool,
    pub recover: bool,
    pub force_connection: bool,
    pub force_connections_no: Option<u32>,
}

/// `arg` is the long or the short spelling of an option.
pub open spec fn is_option(arg: Seq<char>, long: Seq<char>, short: Seq<char>) -> bool {
    arg == long || arg == short
}

/// `--help` or `-h`.
pub open spec fn is_help(arg: Seq<char>) -> bool {
    is_option(arg, "--help"@, "-h"@)
}

/// `--version` or `-v`.
pub open spec fn is_version(arg: Seq<char>) -> bool {
    is_option(arg, "--version"@, "-v"@)
}

/// `--recover` or `-r`.
pub open spec fn is_recover(arg: Seq<char>) -> bool {
    is_option(arg, "--recover"@, "-r"@)
}

/// The number of connections forced by the fourth argument: its value as an
/// `i32`, taken as `u32` bit for bit, or 1 when it is not a number.
pub open spec fn forced_connections(arg: Seq<char>) -> u32 {
    match parse_i32(arg) {
        Some(x) => x as u32,
        None => 1,
    }
}

/// `a` asks for nothing but the given flags.
pub open spec fn only_flags(a: Arguments, help: bool, version: bool, recover: bool) -> bool {
    &&& a.url@.len() == 0
    &&& a.dest_path is None
    &&& a.help == help
    &&& a.version == version
    &&& a.recover == recover
    &&& !a.force_connection
    &&& a.force_connections_no is None
}

/// Whether `arg` is the long or the short spelling of an option.
fn is_option_text(arg: &String, long: &str, short: &str) -> (r: bool)
    ensures
        r == is_option(arg@, long@, short@),
{
    let a = chars_of(arg.as_str());
    let l = chars_of(long);
    let s = chars_of(short);
    chars_equal(&a, &l) || chars_equal(&a, &s)
}

/// Reads the command line; `args[0]` is the program's name.
///
/// With one argument, `--help`/`-h`, `--version`/`-v` and `--recover`/`-r`
/// ask for that alone, and anything else is the URL to download. With two,
/// the second is where to save it. With three, the third (after `--force`)
/// forces the number of connections. Any other count is refused.
pub fn parse_args(args: &[String]) -> (r: Result<Arguments, Error>)
    ensures
        args@.len() == 2 && is_help(args@[1]@) ==> (r matches Ok(a) && only_flags(
            a,
            true,
            false,
            false,
        )),
        args@.len() == 2 && is_version(args@[1]@) ==> (r matches Ok(a) && only_flags(
            a,
            false,
            true,
            false,
        )),
        args@.len() == 2 && is_recover(args@[1]@) ==> (r matches Ok(a) && only_flags(
            a,
            false,
            false,
            true,
        )),
        args@.len() == 2 && !is_help(args@[1]@) && !is_version(args@[1]@) && !is_recover(
            args@[1]@,
        ) ==> (r matches Ok(a) && {
            &&& a.url@ == args@[1]@
            &&& a.dest_path is None
            &&& !a.help && !a.version && !a.recover
            &&& !a.force_connection
            &&& a.force_connections_no is None
        }),
        args@.len() == 3 ==> (r matches Ok(a) && {
            &&& a.url@ == args@[1]@
            &&& a.dest_path matches Some(p) && p@ == args@[2]@
            &&& !a.help && !a.version && !a.recover
            &&& !a.force_connection
            &&& a.force_connections_no is None
        }),
        args@.len() == 4 ==> (r matches Ok(a) && {
            &&& a.url@ == args@[1]@
            &&& a.dest_path is None
            &&& !a.help && !a.version && !a.recover
            &&& a.force_connection
            &&& a.force_connections_no == Some(forced_connections(args@[3]@))
        }),
        args@.len() != 2 && args@.len() != 3 && args@.len() != 4 ==> r matches Err(
            Error::InvalidArguments,
        ),
{
    proof {
        reveal_strlit("--help");
        reveal_strlit("-h");
        reveal_strlit("--version");
        reveal_strlit("-v");
        reveal_strlit("--recover");
        reveal_strlit("-r");
        assert("--help"@.len() != "--version"@.len());
        assert("--help"@.len() != "-v"@.len());
        assert("-h"@.len() != "--version"@.len());
        assert("-h"@[1] != "-v"@[1]);
        assert("--help"@.len() != "--recover"@.len());
        assert("--help"@.len() != "-r"@.len());
        assert("-h"@.len() != "--recover"@.len());
        assert("-h"@[1] != "-r"@[1]);
        assert("--version"@[2] != "--recover"@[2]);
        assert("--version"@.len() != "-r"@.len());
        assert("-v"@.len() != "--recover"@.len());
        assert("-v"@[1] != "-r"@[1]);
    }
    let n = args.len();
    if n == 2 {
        if is_option_text(&args[1], "--help", "-h") {
            return Ok(
                Arguments {
                    url: String::new(),
                    dest_path: None,
                    help: true,
                    version: false,
                    recover: false,
                    force_connection: false,
                    force_connections_no: None,
                },
            );
        }
        if is_option_text(&args[1], "--version", "-v") {
            return Ok(
                Arguments {
                    url: String::new(),
                    dest_path: None,
                    help: false,
                    version: true,
                    recover: false,
                    force_connection: false,
                    force_connections_no: None,
                },
            );
        }
        if is_option_text(&args[1], "--recover", "-r") {
            return Ok(
                Arguments {
                    url: String::new(),
                    dest_path: None,
                    help: false,
                    version: false,
                    recover: true,
                    force_connection: false,
                    force_connections_no: None,
                },
            );
        }
    }
    if n == 2 {
        Ok(
            Arguments {
                url: args[1].clone(),
                dest_path: None,
                help: false,
                version: false,
                recover: false,
                force_connection: false,
                force_connections_no: None,
            },
        )
    } else if n == 3 {
        Ok(
            Arguments {
                url: args[1].clone(),
                dest_path: Some(args[2].clone()),
                help: false,
                version: false,
                recover: false,
                force_connection: false,
                force_connections_no: None,
            },
        )
    } else if n == 4 {
        let forced: i32 = match parse_i32_text(args[3].as_str()) {
            Some(x) => x,
            None => 1,
        };
        Ok(
            Arguments {
                url: args[1].clone(),
                dest_path: None,
                help: false,
                version: false,
                recover: false,
                force_connection: true,
                force_connections_no: Some(#[verifier::truncate] (forced as u32)),
            },
        )
    } else {
        Err(Error::InvalidArguments)
    }
}

/// How long the time left, in whole seconds, is shown: `Ss`, `Mm:Ss` or `Hh:Mm:Ss`.
pub open spec fn time_left_text(seconds: nat) -> Seq<char> {
    let h = seconds / 3600;
    let m = (seconds % 3600) / 60;
    let s = seconds % 60;
    if h == 0 && m == 0 {
        decimal(s) + "s"@
    } else if h == 0 {
        decimal(m) + "m:"@ + decimal(s) + "s"@
    } else {
        decimal(h) + "h:"@ + decimal(m) + "m:"@ + decimal(s) + "s"@
    }
}

/// The estimate of the time left: the bytes still to come divided by the
/// speed in whole bytes per second, or `Unknown` when the speed is zero.
pub open spec fn estimate_text(downloaded: nat, total: nat, speed: nat) -> Seq<char> {
    if speed == 0 {
        "Unknown"@
    } else {
        time_left_text(((total - downloaded) as nat) / speed)
    }
}

/// The number of seconds in `h` hours, `m` minutes and `s` seconds.
pub open spec fn in_seconds(h: nat, m: nat, s: nat) -> nat {
    h * 3600 + m * 60 + s
}

/// `text` shows `seconds` as hours, minutes and seconds that add back up to
/// it, with minutes and seconds below sixty: `Ss` when under a minute,
/// `Mm:Ss` when under an hour, `Hh:Mm:Ss` otherwise.
pub open spec fn shows_time_left(text: Seq<char>, seconds: nat) -> bool {
    exists|h: nat, m: nat, s: nat|
        {
            &&& #[trigger] in_seconds(h, m, s) == seconds
            &&& m < 60
            &&& s < 60
            &&& text == if h == 0 && m == 0 {
                decimal(s) + "s"@
            } else if h == 0 {
                decimal(m) + "m:"@ + decimal(s) + "s"@
            } else {
                decimal(h) + "h:"@ + decimal(m) + "m:"@ + decimal(s) + "s"@
            }
        }
}

/// The time left is shown as hours, minutes and seconds that add back up to
/// the bytes still to come divided by the speed.
pub proof fn lemma_time_left_adds_up(downloaded: nat, total: nat, speed: nat)
    requires
        speed > 0,
        downloaded <= total,
    ensures
        shows_time_left(
            estimate_text(downloaded, total, speed),
            ((total - downloaded) as nat) / speed,
        ),
{
    let t = ((total - downloaded) as nat) / speed;
    lemma_time_left_parts(t);
    let h = t / 3600;
    let m = (t % 3600) / 60;
    let sec = t % 60;
    assert(in_seconds(h, m, sec) == t);
    assert(estimate_text(downloaded, total, speed) == if h == 0 && m == 0 {
        decimal(sec) + "s"@
    } else if h == 0 {
        decimal(m) + "m:"@ + decimal(sec) + "s"@
    } else {
        decimal(h) + "h:"@ + decimal(m) + "m:"@ + decimal(sec) + "s"@
    });
}

/// The hours, minutes and seconds shown add back up to the time left, and
/// minutes and seconds stay below sixty.
pub proof fn lemma_time_left_parts(seconds: nat)
    ensures
        (seconds / 3600) * 3600 + ((seconds % 3600) / 60) * 60 + seconds % 60 == seconds,
        (seconds % 3600) / 60 < 60,
        seconds % 60 < 60,
{
    assert((seconds / 3600) * 3600 + seconds % 3600 == seconds) by (nonlinear_arith);
    assert(((seconds % 3600) / 60) * 60 + (seconds % 3600) % 60 == seconds % 3600) by (
    nonlinear_arith);
    assert((seconds % 3600) % 60 == seconds % 60) by (nonlinear_arith);
}

/// The time left to download the rest of `total` bytes at `speed` bytes per second.
pub fn calctimeleft(downloaded: u64, total: u64, speed: u64) -> (text: String)
    requires
        speed != 0 ==> downloaded <= total,
    ensures
        text@ == estimate_text(downloaded as nat, total as nat, speed as nat),
        speed == 0 ==> text@ == "Unknown"@,
        speed != 0 ==> shows_time_left(text@, ((total - downloaded) / (speed as int)) as nat),
{
    if speed == 0 {
        return String::from_str("Unknown");
    }
    proof {
        lemma_time_left_adds_up(downloaded as nat, total as nat, speed as nat);
    }
    let time_left = (total - downloaded) / speed;
    let hours = time_left / 3600;
    let minutes = (time_left % 3600) / 60;
    let secs = time_left % 60;
    let mut text = String::new();
    if hours == 0 && minutes == 0 {
        push_decimal(&mut text, secs);
        text.append("s");
    } else if hours == 0 {
        push_decimal(&mut text, minutes);
        text.append("m:");
        push_decimal(&mut text, secs);
        text.append("s");
    } else {
        push_decimal(&mut text, hours);
        text.append("h:");
        push_decimal(&mut text, minutes);
        text.append("m:");
        push_decimal(&mut text, secs);
        text.append("s");
    }
    text
}

/// The width of the progress bar, in characters.
pub const BAR_WIDTH: usize = 50;

/// The progress bar's text with its first `filled` cells done.
pub open spec fn bar_text(filled: nat) -> Seq<char> {
    Seq::new(BAR_WIDTH as nat, |i: int| if i < filled { '#' } else { '-' })
}

/// A bar of fifty cells that fills with `#` as the download goes on.
pub struct ProgressBar {
    pub filled: usize,
}

impl ProgressBar {
    /// An empty bar.
    pub fn new() -> (b: Self)
        ensures
            b.filled == 0,
    {
        ProgressBar { filled: 0 }
    }

    /// Fills the bar up to `target` cells; a bar never empties.
    pub fn advance(&mut self, target: usize)
        requires
            old(self).filled <= BAR_WIDTH,
            target <= BAR_WIDTH,
        ensures
            final(self).filled == if target > old(self).filled {
                target
            } else {
                old(self).filled
            },
            final(self).filled <= BAR_WIDTH,
    {
        if target > self.filled {
            self.filled = target;
        }
    }

    /// The bar as it is shown.
    pub fn text(&self) -> (t: String)
        requires
            self.filled <= BAR_WIDTH,
        ensures
            t@ == bar_text(self.filled as nat),
    {
        let mut t = String::new();
        let mut i: usize = 0;
        while i < BAR_WIDTH
            invariant
                i <= BAR_WIDTH,
                t@ == bar_text(self.filled as nat).take(i as int),
            decreases BAR_WIDTH - i,
        {
            if i < self.filled {
                t.push('#');
            } else {
                t.push('-');
            }
            i = i + 1;
            assert(t@ =~= bar_text(self.filled as nat).take(i as int));
        }
        assert(bar_text(self.filled as nat).take(BAR_WIDTH as int) =~= bar_text(
            self.filled as nat,
        ));
        t
    }
}

/// The unit a byte count is shown in, with the number of bytes it stands
/// for: TB, GB, MB and KB from a thousand of them up, B below.
pub open spec fn byte_unit_of(n: u64) -> (u64, Seq<char>) {
    if n >= 1000000000000 {
        (1000000000000, "TB"@)
    } else if n >= 1000000000 {
        (1000000000, "GB"@)
    } else if n >= 1000000 {
        (1000000, "MB"@)
    } else if n >= 1000 {
        (1000, "KB"@)
    } else {
        (1, "B"@)
    }
}

/// The unit to show a byte count in, and how many bytes one unit stands for.
pub fn byte_unit(n: u64) -> (r: (u64, &'static str))
    ensures
        r.0 == byte_unit_of(n).0,
        r.1@ == byte_unit_of(n).1,
{
    if n >= 1000000000000 {
        (1000000000000, "TB")
    } else if n >= 1000000000 {
        (1000000000, "GB")
    } else if n >= 1000000 {
        (1000000, "MB")
    } else if n >= 1000 {
        (1000, "KB")
    } else {
        (1, "B")
    }
}

/// The colour a status is shown in.
pub open spec fn status_color(status: DownloadStatus) -> Seq<char> {
    match status {
        DownloadStatus::Connecting => "\x1b[33m"@,
        DownloadStatus::Downloading => "\x1b[32m"@,
        DownloadStatus::ConnectingNewConnection => "\x1b[33m"@,
        DownloadStatus::Stalled => "\x1b[31m"@,
        DownloadStatus::Failed => "\x1b[31m"@,
        DownloadStatus::Completed => "\x1b[32m"@,
    }
}

/// The word a status is shown as.
pub open spec fn status_label(status: DownloadStatus) -> Seq<char> {
    match status {
        DownloadStatus::Connecting => "CONNECTING"@,
        DownloadStatus::Downloading => "DOWNLOADING"@,
        DownloadStatus::ConnectingNewConnection => "ADDING NEW CONNECTION"@,
        DownloadStatus::Stalled => "STALLED"@,
        DownloadStatus::Failed => "FAILED"@,
        DownloadStatus::Completed => "COMPLETED"@,
    }
}

/// How an optional status code is shown: `Some(CODE)` or `None`.
pub open spec fn http_status_text(code: Option<u16>) -> Seq<char> {
    match code {
        Some(c) => "Some("@ + decimal(c as nat) + ")"@,
        None => "None"@,
    }
}

/// The first line of the display: status, open connections and the HTTP
/// status of the server's first answer.
pub open spec fn status_line_text(
    status: DownloadStatus,
    connections: u8,
    http_status: Option<u16>,
) -> Seq<char> {
    "DOWNLOAD STATUS: "@ + status_color(status) + status_label(status) + "\x1b[0m"@ + "\t"@
        + "CONNECTIONS: "@ + decimal(connections as nat) + "\t"@ + "HTTP STATUS: "@
        + http_status_text(http_status) + "\n"@
}

/// What follows the status word does not depend on the status: for any two
/// statuses, the lines end the same, with the connection count and the HTTP
/// status code as given (`Some(CODE)` or `None`).
pub proof fn lemma_status_line_tail(
    status: DownloadStatus,
    other: DownloadStatus,
    connections: u8,
    http_status: Option<u16>,
)
    ensures
        ({
            let tail = "\x1b[0m"@ + "\t"@ + "CONNECTIONS: "@ + decimal(connections as nat) + "\t"@
                + "HTTP STATUS: "@ + match http_status {
                Some(c) => "Some("@ + decimal(c as nat) + ")"@,
                None => "None"@,
            } + "\n"@;
            &&& status_line_text(status, connections, http_status) == "DOWNLOAD STATUS: "@
                + status_color(status) + status_label(status) + tail
            &&& status_line_text(other, connections, http_status) == "DOWNLOAD STATUS: "@
                + status_color(other) + status_label(other) + tail
        }),
{
    let tail = "\x1b[0m"@ + "\t"@ + "CONNECTIONS: "@ + decimal(connections as nat) + "\t"@
        + "HTTP STATUS: "@ + match http_status {
        Some(c) => "Some("@ + decimal(c as nat) + ")"@,
        None => "None"@,
    } + "\n"@;
    assert(status_line_text(status, connections, http_status) =~= "DOWNLOAD STATUS: "@
        + status_color(status) + status_label(status) + tail);
    assert(status_line_text(other, connections, http_status) =~= "DOWNLOAD STATUS: "@
        + status_color(other) + status_label(other) + tail);
}

/// The first line of the progress display.
pub fn status_line(status: DownloadStatus, connections: u8, http_status: Option<u16>) -> (t: String)
    ensures
        t@ == status_line_text(status, connections, http_status),
        t@ == "DOWNLOAD STATUS: "@ + status_color(status) + status_label(status) + "\x1b[0m"@
            + "\t"@ + "CONNECTIONS: "@ + decimal(connections as nat) + "\t"@ + "HTTP STATUS: "@
            + match http_status {
            Some(c) => "Some("@ + decimal(c as nat) + ")"@,
            None => "None"@,
        } + "\n"@,
{
    let mut t = String::from_str("DOWNLOAD STATUS: ");
    match status {
        DownloadStatus::Connecting => {
            t.append("\x1b[33m");
            t.append("CONNECTING");
        },
        DownloadStatus::Downloading => {
            t.append("\x1b[32m");
            t.append("DOWNLOADING");
        },
        DownloadStatus::ConnectingNewConnection => {
            t.append("\x1b[33m");
            t.append("ADDING NEW CONNECTION");
        },
        DownloadStatus::Stalled => {
            t.append("\x1b[31m");
            t.append("STALLED");
        },
        DownloadStatus::Failed => {
            t.append("\x1b[31m");
            t.append("FAILED");
        },
        DownloadStatus::Completed => {
            t.append("\x1b[32m");
            t.append("COMPLETED");
        },
    }
    t.append("\x1b[0m");
    t.append("\t");
    t.append("CONNECTIONS: ");
    push_decimal(&mut t, connections as u64);
    t.append("\t");
    t.append("HTTP STATUS: ");
    match http_status {
        Some(c) => {
            t.append("Some(");
            push_decimal(&mut t, c as u64);
            t.append(")");
        },
        None => {
            t.append("None");
        },
    }
    t.append("\n");
    t
}

/// Whether the display has shown its last state: the download completed or failed.
pub fn is_finished(status: DownloadStatus) -> (r: bool)
    ensures
        r == (status == DownloadStatus::Completed || status == DownloadStatus::Failed),
{
    match status {
        DownloadStatus::Completed => true,
        DownloadStatus::Failed => true,
        _ => false,
    }
}

/// How old, in nanoseconds, a sample may be and still count towards the
/// speed: a sample is dropped once more than ten whole seconds have passed.
pub open spec fn is_stale(sample_time: u64, now: u64) -> bool {
    (now - sample_time) / 1_000_000_000 > 10
}

/// The amounts downloaded at recent moments, from which the display works
/// out the speed. Moments are nanoseconds since the display started.
pub struct SpeedWindow {
    pub samples: VecDeque<(u64, u64)>,
}

impl SpeedWindow {
    /// The samples are in the order they were taken.
    pub open spec fn wf(&self) -> bool {
        forall|i: int, j: int|
            0 <= i <= j < self.samples@.len() ==> #[trigger] self.samples@[i].0
                <= #[trigger] self.samples@[j].0
    }

    /// A window with no sample.
    pub fn new() -> (w: Self)
        ensures
            w.wf(),
            w.samples@.len() == 0,
    {
        SpeedWindow { samples: VecDeque::new() }
    }

    /// Adds the amount downloaded at `now`, drops the samples that are too
    /// old, and returns the oldest sample kept.
    pub fn record(&mut self, now: u64, downloaded: u64) -> (oldest: (u64, u64))
        requires
            old(self).wf(),
            forall|i: int| 0 <= i < old(self).samples@.len() ==> #[trigger] old(self).samples@[i].0
                <= now,
        ensures
            final(self).wf(),
            final(self).samples@.len() >= 1,
            oldest == final(self).samples@[0],
            final(self).samples@.last() == (now, downloaded),
            exists|k: int|
                0 <= k <= old(self).samples@.len() && final(self).samples@ == old(
                    self,
                ).samples@.push((now, downloaded)).skip(k) && forall|i: int|
                    0 <= i < k ==> is_stale(#[trigger] old(self).samples@[i].0, now),
            forall|i: int|
                0 <= i < final(self).samples@.len() ==> !is_stale(
                    #[trigger] final(self).samples@[i].0,
                    now,
                ),
    {
        let ghost all = self.samples@.push((now, downloaded));
        self.samples.push_back((now, downloaded));
        assert(self.samples@ == all);
        let ghost mut k: int = 0;
        loop
            invariant
                0 <= k <= all.len() - 1,
                self.samples@ == all.skip(k),
                forall|i: int| 0 <= i < k ==> is_stale(#[trigger] all[i].0, now),
                forall|i: int, j: int| 0 <= i <= j < all.len() ==> #[trigger] all[i].0 <= #[trigger] all[j].0,
                all.last() == (now, downloaded),
                forall|i: int| 0 <= i < all.len() ==> #[trigger] all[i].0 <= now,
            ensures
                self.samples@ == all.skip(k),
                0 <= k <= all.len() - 1,
                forall|i: int| 0 <= i < k ==> is_stale(#[trigger] all[i].0, now),
                !is_stale(all[k].0, now),
            decreases all.len() - k,
        {
            let front = self.samples[0];
            assert(front == all[k]);
            if (now - front.0) / 1_000_000_000 > 10 {
                assert(k < all.len() - 1);
                self.samples.pop_front();
                proof {
                    k = k + 1;
                }
                assert(self.samples@ =~= all.skip(k));
            } else {
                break;
            }
        }
        assert forall|i: int| 0 <= i < k implies is_stale(
            #[trigger] old(self).samples@[i].0,
            now,
        ) by {
            assert(all[i] == old(self).samples@[i]);
        }
        self.samples[0]
    }
}

} // verus!
