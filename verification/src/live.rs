//! The dialog for a live connection: its fields, the endpoint they stand for,
//! and the file into which the connection is recorded.

use crate::calendar::{
    civil_from_days, div_floor, moment, push_padded, push_padded_int, zero_padded,
    zero_padded_int,
};
use crate::paths::{
    is_file_name, is_joined, is_verbatim, joined_path, path_from, path_join, path_text,
};
use crate::text::{
    chars_of, decimal, decimal_text, digit, same_text, trim, trimmed,
};
use std::path::PathBuf;
use vstd::prelude::*;

verus! {

/// How a connection is made.
#[derive(Clone, Copy, Debug, PartialEq, Eq, Structural)]
pub enum EndpointKind {
    UdpServer,
    TcpClient,
    Serial,
}

/// How a connection is made, as the settings name it.
#[derive(Clone, Copy, Debug, PartialEq, Eq, Structural)]
pub enum LiveConnectionMode {
    UdpServer,
    TcpClient,
    Serial,
}

/// The settings of the last connection.
#[derive(Clone, Debug)]
pub struct LiveConnectionSettings {
    pub mode: LiveConnectionMode,
    pub host: String,
    pub port: u16,
    pub serial_path: String,
    pub baud: u32,
    pub recording_enabled: bool,
    pub recording_dir: String,
}

/// Where a connection is made to. An address is the text of an IP literal.
#[derive(Clone, Debug)]
pub enum Endpoint {
    UdpServer { ip: String, port: u16 },
    TcpClient { ip: String, port: u16 },
    Serial { path: String, baud: u32 },
}

/// The fields of the dialog, as they were typed.
pub struct ConnectionDialog {
    pub kind: EndpointKind,
    pub host: String,
    pub port: String,
    pub serial_path: String,
    pub baud: String,
    pub recording_enabled: bool,
    pub recording_dir: String,
    pub error: Option<String>,
}

/// The rate of a serial line where none is given.
pub const DEFAULT_BAUD: u32 = 115_200;

/// 14550 is the port of ground stations; 5760 that of simulated vehicles.
pub open spec fn port_of(kind: EndpointKind) -> u16 {
    match kind {
        EndpointKind::UdpServer => 14550,
        EndpointKind::TcpClient => 5760,
        EndpointKind::Serial => 0,
    }
}

pub open spec fn port_text_of(kind: EndpointKind) -> Seq<char> {
    match kind {
        EndpointKind::UdpServer => "14550"@,
        EndpointKind::TcpClient => "5760"@,
        EndpointKind::Serial => ""@,
    }
}

pub fn default_port(kind: EndpointKind) -> (r: &'static str)
    ensures
        r@ == port_text_of(kind),
{
    match kind {
        EndpointKind::UdpServer => "14550",
        EndpointKind::TcpClient => "5760",
        EndpointKind::Serial => "",
    }
}

pub fn default_port_u16(kind: EndpointKind) -> (r: u16)
    ensures
        r == port_of(kind),
{
    match kind {
        EndpointKind::UdpServer => 14550,
        EndpointKind::TcpClient => 5760,
        EndpointKind::Serial => 0,
    }
}

pub open spec fn kind_of(mode: LiveConnectionMode) -> EndpointKind {
    match mode {
        LiveConnectionMode::UdpServer => EndpointKind::UdpServer,
        LiveConnectionMode::TcpClient => EndpointKind::TcpClient,
        LiveConnectionMode::Serial => EndpointKind::Serial,
    }
}

pub open spec fn mode_of(kind: EndpointKind) -> LiveConnectionMode {
    match kind {
        EndpointKind::UdpServer => LiveConnectionMode::UdpServer,
        EndpointKind::TcpClient => LiveConnectionMode::TcpClient,
        EndpointKind::Serial => LiveConnectionMode::Serial,
    }
}

pub fn endpoint_kind(mode: LiveConnectionMode) -> (r: EndpointKind)
    ensures
        r == kind_of(mode),
{
    match mode {
        LiveConnectionMode::UdpServer => EndpointKind::UdpServer,
        LiveConnectionMode::TcpClient => EndpointKind::TcpClient,
        LiveConnectionMode::Serial => EndpointKind::Serial,
    }
}

pub fn live_connection_mode(kind: EndpointKind) -> (r: LiveConnectionMode)
    ensures
        r == mode_of(kind),
{
    match kind {
        EndpointKind::UdpServer => LiveConnectionMode::UdpServer,
        EndpointKind::TcpClient => LiveConnectionMode::TcpClient,
        EndpointKind::Serial => LiveConnectionMode::Serial,
    }
}

/// Whether a character is a decimal digit.
pub open spec fn is_digit(c: char) -> bool {
    48 <= c as int <= 57
}

/// The number that decimal digits stand for.
pub open spec fn digits_value(s: Seq<char>) -> nat
    decreases s.len(),
{
    if s.len() == 0 {
        0
    } else {
        10 * digits_value(s.drop_last()) + (s.last() as int - 48) as nat
    }
}

/// The digits of a number that may have a plus sign in front.
pub open spec fn unsigned_digits(s: Seq<char>) -> Seq<char> {
    if s.len() > 0 && s[0] == '+' {
        s.skip(1)
    } else {
        s
    }
}

/// The number up to `max` that a text stands for: digits, with a plus sign in
/// front or without.
pub open spec fn parsed_unsigned(s: Seq<char>, max: nat) -> Option<nat> {
    let digits = unsigned_digits(s);
    if digits.len() > 0 && (forall|i: int| 0 <= i < digits.len() ==> is_digit(#[trigger] digits[i]))
        && digits_value(digits) <= max {
        Some(digits_value(digits))
    } else {
        None
    }
}

proof fn lemma_value_grows(s: Seq<char>, n: int)
    requires
        0 <= n <= s.len(),
        forall|i: int| 0 <= i < s.len() ==> is_digit(#[trigger] s[i]),
    ensures
        digits_value(s.take(n)) <= digits_value(s),
    decreases s.len() - n,
{
    if n == s.len() {
        assert(s.take(n) =~= s);
    } else {
        lemma_value_grows(s, n + 1);
        assert(s.take(n + 1).drop_last() =~= s.take(n));
        assert(s.take(n + 1).last() == s[n]);
        assert(is_digit(s[n]));
    }
}

fn digit_value(c: char) -> (r: Option<u64>)
    ensures
        is_digit(c) ==> r == Some((c as int - 48) as u64),
        !is_digit(c) ==> r is None,
{
    let n: u32 = c as u32;
    if 48 <= n && n <= 57 {
        Some((n - 48) as u64)
    } else {
        None
    }
}

/// The number up to `max` that a text stands for.
pub fn parse_unsigned(s: &str, max: u64) -> (r: Option<u64>)
    requires
        max <= u32::MAX,
    ensures
        parsed_unsigned(s@, max as nat) == match r {
            Some(n) => Some(n as nat),
            None => None,
        },
        r matches Some(n) ==> n <= max,
{
    let chars = chars_of(s);
    let count: usize = chars.len();
    let from: usize = if count > 0 && chars[0] == '+' {
        1
    } else {
        0
    };
    let ghost digits = unsigned_digits(s@);
    proof {
        assert(digits =~= s@.skip(from as int));
    }
    if from == count {
        return None;
    }
    let mut value: u64 = 0;
    let mut i: usize = from;
    proof {
        assert(digits.take(0) =~= Seq::<char>::empty());
    }
    while i < count
        invariant
            from <= i <= count == chars@.len(),
            chars@ == s@,
            digits == unsigned_digits(s@),
            digits =~= s@.skip(from as int),
            max <= u32::MAX,
            value <= max,
            value == digits_value(digits.take(i - from)),
            forall|j: int| 0 <= j < i - from ==> is_digit(#[trigger] digits[j]),
        decreases count - i,
    {
        let ghost at = i - from;
        proof {
            assert(digits[at] == s@[i as int]);
            assert(digits.take(at + 1).drop_last() =~= digits.take(at));
            assert(digits.take(at + 1).last() == digits[at]);
        }
        let d: u64 = match digit_value(chars[i]) {
            Some(d) => d,
            None => {
                return None;
            },
        };
        value = value * 10 + d;
        if value > max {
            proof {
                if forall|j: int| 0 <= j < digits.len() ==> is_digit(#[trigger] digits[j]) {
                    lemma_value_grows(digits, at + 1);
                }
            }
            return None;
        }
        i = i + 1;
    }
    proof {
        assert(digits.take(i - from) =~= digits);
    }
    Some(value)
}

proof fn lemma_decimal_digits(n: nat)
    ensures
        decimal(n).len() > 0,
        forall|i: int| 0 <= i < decimal(n).len() ==> is_digit(#[trigger] decimal(n)[i]),
        digits_value(decimal(n)) == n,
    decreases n,
{
    if n < 10 {
        assert(decimal(n) == seq![digit(n)]);
        assert(decimal(n).drop_last() =~= Seq::<char>::empty());
        assert(digits_value(decimal(n).drop_last()) == 0);
        assert(decimal(n).last() as int == 48 + n);
    } else {
        lemma_decimal_digits(n / 10);
        assert(decimal(n).drop_last() =~= decimal(n / 10));
        assert(decimal(n).last() == digit(n % 10));
        assert(digit(n % 10) as int == 48 + n % 10);
    }
}

/// A number that was written in decimal is read back.
pub proof fn decimals_are_read_back(n: nat, max: nat)
    requires
        n <= max,
    ensures
        parsed_unsigned(decimal(n), max) == Some(n),
{
    lemma_decimal_digits(n);
    assert(is_digit(decimal(n)[0]));
}

/// The name of a recording: `delog-live-` and the moment at which it begins.
pub open spec fn recording_name(unix_us: int) -> Seq<char> {
    let t = moment(unix_us / 1_000_000);
    "delog-live-"@ + zero_padded_int(t.date.0, 4) + "-"@ + zero_padded(t.date.1 as nat, 2) + "-"@
        + zero_padded(t.date.2 as nat, 2) + "_"@ + zero_padded(t.hour as nat, 2) + "-"@
        + zero_padded(t.minute as nat, 2) + "-"@ + zero_padded(t.second as nat, 2) + ".tlog"@
}

/// The name of a recording that begins at a moment.
pub fn recording_filename(unix_us: i64) -> (r: String)
    ensures
        r@ == recording_name(unix_us as int),
{
    let (secs, _) = div_floor(unix_us, 1_000_000);
    let (days, sod) = div_floor(secs, 86_400);
    proof {
        assert(-9_300_000_000_000 <= secs <= 9_300_000_000_000);
        assert(-110_000_000 <= days <= 110_000_000);
    }
    let (y, m, d) = civil_from_days(days);
    proof {
        crate::calendar::lemma_year_bound(y as int, m as int, d as int);
    }
    let mut out = "delog-live-".to_owned();
    push_padded_int(&mut out, y, 4);
    out.append("-");
    push_padded(&mut out, m as u64, 2);
    out.append("-");
    push_padded(&mut out, d as u64, 2);
    out.append("_");
    push_padded(&mut out, (sod / 3600) as u64, 2);
    out.append("-");
    push_padded(&mut out, ((sod / 60) % 60) as u64, 2);
    out.append("-");
    push_padded(&mut out, (sod % 60) as u64, 2);
    out.append(".tlog");
    proof {
        assert(out@ =~= recording_name(unix_us as int));
    }
    out
}

/// Whether a text holds nothing that could separate components of a path.
spec fn is_safe(s: Seq<char>) -> bool {
    forall|i: int| 0 <= i < s.len() ==> #[trigger] s[i] != '/' && s[i] != '\\' && s[i] != ':'
}

proof fn lemma_safe_parts(a: Seq<char>, b: Seq<char>)
    requires
        is_safe(a),
        is_safe(b),
    ensures
        is_safe(a + b),
{
    let s = a + b;
    assert forall|i: int| 0 <= i < s.len() implies #[trigger] s[i] != '/' && s[i] != '\\' && s[i]
        != ':' by {
        if i < a.len() {
            assert(s[i] == a[i]);
        } else {
            assert(s[i] == b[i - a.len()]);
        }
    }
}

proof fn lemma_padded_is_safe(n: nat, width: nat)
    ensures
        is_safe(zero_padded(n, width)),
{
    lemma_decimal_digits(n);
    let digits = decimal(n);
    assert(is_safe(digits)) by {
        assert forall|i: int| 0 <= i < digits.len() implies #[trigger] digits[i] != '/'
            && digits[i] != '\\' && digits[i] != ':' by {
            assert(is_digit(digits[i]));
        }
    }
    if digits.len() < width {
        let zeros = Seq::new((width - digits.len()) as nat, |i: int| '0');
        assert(is_safe(zeros));
        lemma_safe_parts(zeros, digits);
    }
}

/// The name of a recording is a single component of a path.
pub proof fn recordings_are_files(unix_us: int)
    ensures
        is_file_name(recording_name(unix_us)),
{
    reveal_strlit("delog-live-");
    reveal_strlit("-");
    reveal_strlit("_");
    reveal_strlit(".tlog");
    let t = moment(unix_us / 1_000_000);
    let year = zero_padded_int(t.date.0, 4);
    assert(is_safe(year)) by {
        if t.date.0 < 0 {
            lemma_padded_is_safe((-t.date.0) as nat, 3);
            assert(is_safe(seq!['-']));
            lemma_safe_parts(seq!['-'], zero_padded((-t.date.0) as nat, 3));
        } else {
            lemma_padded_is_safe(t.date.0 as nat, 4);
        }
    }
    lemma_padded_is_safe(t.date.1 as nat, 2);
    lemma_padded_is_safe(t.date.2 as nat, 2);
    lemma_padded_is_safe(t.hour as nat, 2);
    lemma_padded_is_safe(t.minute as nat, 2);
    lemma_padded_is_safe(t.second as nat, 2);
    let s1 = "delog-live-"@ + year;
    lemma_safe_parts("delog-live-"@, year);
    let s2 = s1 + "-"@;
    lemma_safe_parts(s1, "-"@);
    let s3 = s2 + zero_padded(t.date.1 as nat, 2);
    lemma_safe_parts(s2, zero_padded(t.date.1 as nat, 2));
    let s4 = s3 + "-"@;
    lemma_safe_parts(s3, "-"@);
    let s5 = s4 + zero_padded(t.date.2 as nat, 2);
    lemma_safe_parts(s4, zero_padded(t.date.2 as nat, 2));
    let s6 = s5 + "_"@;
    lemma_safe_parts(s5, "_"@);
    let s7 = s6 + zero_padded(t.hour as nat, 2);
    lemma_safe_parts(s6, zero_padded(t.hour as nat, 2));
    let s8 = s7 + "-"@;
    lemma_safe_parts(s7, "-"@);
    let s9 = s8 + zero_padded(t.minute as nat, 2);
    lemma_safe_parts(s8, zero_padded(t.minute as nat, 2));
    let s10 = s9 + "-"@;
    lemma_safe_parts(s9, "-"@);
    let s11 = s10 + zero_padded(t.second as nat, 2);
    lemma_safe_parts(s10, zero_padded(t.second as nat, 2));
    lemma_safe_parts(s11, ".tlog"@);
}

/// The settings as values.
#[verifier::ext_equal]
pub ghost struct SettingsView {
    pub mode: LiveConnectionMode,
    pub host: Seq<char>,
    pub port: u16,
    pub serial_path: Seq<char>,
    pub baud: u32,
    pub recording_enabled: bool,
    pub recording_dir: Seq<char>,
}

impl View for LiveConnectionSettings {
    type V = SettingsView;

    open spec fn view(&self) -> SettingsView {
        SettingsView {
            mode: self.mode,
            host: self.host@,
            port: self.port,
            serial_path: self.serial_path@,
            baud: self.baud,
            recording_enabled: self.recording_enabled,
            recording_dir: self.recording_dir@,
        }
    }
}

/// Where a connection is made to.
#[verifier::ext_equal]
pub ghost enum EndpointView {
    UdpServer { ip: Seq<char>, port: u16 },
    TcpClient { ip: Seq<char>, port: u16 },
    Serial { path: Seq<char>, baud: u32 },
}

impl View for Endpoint {
    type V = EndpointView;

    open spec fn view(&self) -> EndpointView {
        match self {
            Endpoint::UdpServer { ip, port } => EndpointView::UdpServer { ip: ip@, port: *port },
            Endpoint::TcpClient { ip, port } => EndpointView::TcpClient { ip: ip@, port: *port },
            Endpoint::Serial { path, baud } => EndpointView::Serial { path: path@, baud: *baud },
        }
    }
}

/// The fields of the dialog as values.
#[verifier::ext_equal]
pub ghost struct DialogView {
    pub kind: EndpointKind,
    pub host: Seq<char>,
    pub port: Seq<char>,
    pub serial_path: Seq<char>,
    pub baud: Seq<char>,
    pub recording_enabled: bool,
    pub recording_dir: Seq<char>,
    pub error: Option<Seq<char>>,
}

impl View for ConnectionDialog {
    type V = DialogView;

    open spec fn view(&self) -> DialogView {
        DialogView {
            kind: self.kind,
            host: self.host@,
            port: self.port@,
            serial_path: self.serial_path@,
            baud: self.baud@,
            recording_enabled: self.recording_enabled,
            recording_dir: self.recording_dir@,
            error: crate::graph::optional_text(self.error),
        }
    }
}

/// The dialog that shows settings.
pub open spec fn shown(settings: SettingsView) -> DialogView {
    DialogView {
        kind: kind_of(settings.mode),
        host: settings.host,
        port: decimal(settings.port as nat),
        serial_path: settings.serial_path,
        baud: decimal(settings.baud as nat),
        recording_enabled: settings.recording_enabled,
        recording_dir: settings.recording_dir,
        error: None,
    }
}

/// The settings that a dialog stands for. What is not a number gives way to the
/// usual one.
pub open spec fn kept(dialog: DialogView) -> SettingsView {
    SettingsView {
        mode: mode_of(dialog.kind),
        host: trimmed(dialog.host),
        port: match parsed_unsigned(trimmed(dialog.port), u16::MAX as nat) {
            Some(n) => n as u16,
            None => port_of(dialog.kind),
        },
        serial_path: trimmed(dialog.serial_path),
        baud: match parsed_unsigned(trimmed(dialog.baud), u32::MAX as nat) {
            Some(n) => n as u32,
            None => DEFAULT_BAUD,
        },
        recording_enabled: dialog.recording_enabled,
        recording_dir: trimmed(dialog.recording_dir),
    }
}

/// The endpoint that a dialog stands for, or what is wrong with it.
/// `host_is_ip` says whether the host is an IP literal.
pub open spec fn endpoint_of(dialog: DialogView, host_is_ip: bool) -> Result<
    EndpointView,
    Seq<char>,
> {
    match dialog.kind {
        EndpointKind::Serial => match parsed_unsigned(trimmed(dialog.baud), u32::MAX as nat) {
            Some(n) => Ok(
                EndpointView::Serial { path: trimmed(dialog.serial_path), baud: n as u32 },
            ),
            None => Err("baud must be a positive integer"@),
        },
        _ => if !host_is_ip {
            Err("address must be an IP literal"@)
        } else {
            match parsed_unsigned(trimmed(dialog.port), u16::MAX as nat) {
                Some(n) => Ok(
                    if dialog.kind == EndpointKind::UdpServer {
                        EndpointView::UdpServer { ip: trimmed(dialog.host), port: n as u16 }
                    } else {
                        EndpointView::TcpClient { ip: trimmed(dialog.host), port: n as u16 }
                    },
                ),
                None => Err("port must be 0-65535"@),
            }
        },
    }
}

proof fn lemma_trimmed_digits(s: Seq<char>)
    requires
        s.len() > 0,
        forall|i: int| 0 <= i < s.len() ==> is_digit(#[trigger] s[i]),
    ensures
        trimmed(s) == s,
{
    assert(is_digit(s[0]));
    assert(is_digit(s[s.len() - 1]));
}

/// Settings whose texts have no white space at their ends come back from the
/// dialog as they were.
pub proof fn settings_come_back(settings: SettingsView)
    requires
        trimmed(settings.host) == settings.host,
        trimmed(settings.serial_path) == settings.serial_path,
        trimmed(settings.recording_dir) == settings.recording_dir,
    ensures
        kept(shown(settings)) == settings,
{
    lemma_decimal_digits(settings.port as nat);
    lemma_trimmed_digits(decimal(settings.port as nat));
    decimals_are_read_back(settings.port as nat, u16::MAX as nat);
    lemma_decimal_digits(settings.baud as nat);
    lemma_trimmed_digits(decimal(settings.baud as nat));
    decimals_are_read_back(settings.baud as nat, u32::MAX as nat);
}

impl ConnectionDialog {
    /// The dialog as it is first opened; the path of a serial line is that of
    /// the platform.
    pub fn with_serial_path(serial_path: String) -> (r: ConnectionDialog)
        ensures
            r@ == (DialogView {
                kind: EndpointKind::UdpServer,
                host: "0.0.0.0"@,
                port: "14550"@,
                serial_path: serial_path@,
                baud: "115200"@,
                recording_enabled: false,
                recording_dir: ""@,
                error: None,
            }),
    {
        ConnectionDialog {
            kind: EndpointKind::UdpServer,
            host: "0.0.0.0".to_owned(),
            port: "14550".to_owned(),
            serial_path,
            baud: "115200".to_owned(),
            recording_enabled: false,
            recording_dir: "".to_owned(),
            error: None,
        }
    }

    pub fn from_settings(settings: &LiveConnectionSettings) -> (r: ConnectionDialog)
        ensures
            r@ == shown(settings@),
    {
        ConnectionDialog {
            kind: endpoint_kind(settings.mode),
            host: settings.host.clone(),
            port: decimal_text(settings.port as u64),
            serial_path: settings.serial_path.clone(),
            baud: decimal_text(settings.baud as u64),
            recording_enabled: settings.recording_enabled,
            recording_dir: settings.recording_dir.clone(),
            error: None,
        }
    }

    pub fn to_settings(&self) -> (r: LiveConnectionSettings)
        ensures
            r@ == kept(self@),
    {
        let port: u16 = match parse_unsigned(trim(self.port.as_str()).as_str(), u16::MAX as u64) {
            Some(n) => n as u16,
            None => default_port_u16(self.kind),
        };
        let baud: u32 = match parse_unsigned(trim(self.baud.as_str()).as_str(), u32::MAX as u64) {
            Some(n) => n as u32,
            None => DEFAULT_BAUD,
        };
        LiveConnectionSettings {
            mode: live_connection_mode(self.kind),
            host: trim(self.host.as_str()),
            port,
            serial_path: trim(self.serial_path.as_str()),
            baud,
            recording_enabled: self.recording_enabled,
            recording_dir: trim(self.recording_dir.as_str()),
        }
    }

    /// The endpoint that the fields stand for, or what is wrong with them.
    /// `host_is_ip` says whether the host is an IP literal.
    pub fn endpoint(&self, host_is_ip: bool) -> (r: Result<Endpoint, String>)
        ensures
            endpoint_of(self@, host_is_ip) == match r {
                Ok(endpoint) => Ok(endpoint@),
                Err(text) => Err(text@),
            },
    {
        if self.kind == EndpointKind::Serial {
            return match parse_unsigned(trim(self.baud.as_str()).as_str(), u32::MAX as u64) {
                Some(n) => Ok(
                    Endpoint::Serial { path: trim(self.serial_path.as_str()), baud: n as u32 },
                ),
                None => Err("baud must be a positive integer".to_owned()),
            };
        }
        if !host_is_ip {
            return Err("address must be an IP literal".to_owned());
        }
        let ip = trim(self.host.as_str());
        match parse_unsigned(trim(self.port.as_str()).as_str(), u16::MAX as u64) {
            Some(n) => {
                if self.kind == EndpointKind::UdpServer {
                    Ok(Endpoint::UdpServer { ip, port: n as u16 })
                } else {
                    Ok(Endpoint::TcpClient { ip, port: n as u16 })
                }
            },
            None => Err("port must be 0-65535".to_owned()),
        }
    }

    /// The file into which a connection made at `unix_us` is recorded. Without
    /// recording there is none; with it a folder is required. The separator
    /// between folder and name is that of the platform. The text of a file in a
    /// verbatim folder is not stated.
    pub fn recording_path_at(&self, unix_us: i64) -> (r: Result<Option<PathBuf>, String>)
        ensures
            !self.recording_enabled ==> r == Ok::<Option<PathBuf>, String>(None),
            self.recording_enabled && trimmed(self.recording_dir@).len() == 0 ==> (
            r matches Err(text) && text@ == "recording folder is required"@),
            self.recording_enabled && trimmed(self.recording_dir@).len() > 0 ==> (
            r matches Ok(Some(path)) && (!is_verbatim(trimmed(self.recording_dir@)) ==> path_text(
                path,
            ) is Some && is_joined(
                trimmed(self.recording_dir@),
                recording_name(unix_us as int),
                path_text(path).unwrap(),
            )) && exists|dir: PathBuf|
                path_text(dir) == Some(trimmed(self.recording_dir@)) && path
                    == #[trigger] joined_path(dir, recording_name(unix_us as int))),
    {
        if !self.recording_enabled {
            return Ok(None);
        }
        let dir = trim(self.recording_dir.as_str());
        if dir.as_str().unicode_len() == 0 {
            return Err("recording folder is required".to_owned());
        }
        let name = recording_filename(unix_us);
        proof {
            recordings_are_files(unix_us as int);
        }
        Ok(Some(path_join(&path_from(dir.as_str()), name.as_str())))
    }

    /// Turns to another kind of connection. A port that was the usual one of
    /// the kind before becomes the usual one of the new kind.
    pub fn select_kind(&mut self, kind: EndpointKind)
        ensures
            final(self)@ == (DialogView {
                kind,
                port: if kind != old(self).kind && trimmed(old(self).port@) == port_text_of(
                    old(self).kind,
                ) {
                    port_text_of(kind)
                } else {
                    old(self).port@
                },
                ..old(self)@
            }),
    {
        let before = self.kind;
        self.kind = kind;
        if kind != before && same_text(trim(self.port.as_str()).as_str(), default_port(before)) {
            self.port = default_port(kind).to_owned();
        }
    }

    /// What the button to connect leads to: a connection where both the
    /// endpoint and the recording are in order, and otherwise an error that the
    /// dialog shows, the endpoint's before the recording's. The dialog closes
    /// with a connection.
    pub fn connect(
        &mut self,
        endpoint: Result<Endpoint, String>,
        recording: Result<Option<PathBuf>, String>,
    ) -> (r: Option<Endpoint>)
        ensures
            r == match (endpoint, recording) {
                (Ok(endpoint), Ok(_)) => Some(endpoint),
                _ => None,
            },
            final(self)@ == (DialogView {
                error: match (endpoint, recording) {
                    (Ok(_), Ok(_)) => None,
                    (Err(text), _) => Some(text@),
                    (Ok(_), Err(text)) => Some(text@),
                },
                ..old(self)@
            }),
    {
        match endpoint {
            Err(text) => {
                self.error = Some(text);
                None
            },
            Ok(endpoint) => match recording {
                Err(text) => {
                    self.error = Some(text);
                    None
                },
                Ok(_) => {
                    self.error = None;
                    Some(endpoint)
                },
            },
        }
    }
}

/// What the field for the host is called; a serial line has none.
pub fn host_label(kind: EndpointKind) -> (r: Option<&'static str>)
    ensures
        match kind {
            EndpointKind::UdpServer => r matches Some(text) && text@ == "Bind"@,
            EndpointKind::TcpClient => r matches Some(text) && text@ == "Remote"@,
            EndpointKind::Serial => r is None,
        },
{
    match kind {
        EndpointKind::UdpServer => Some("Bind"),
        EndpointKind::TcpClient => Some("Remote"),
        EndpointKind::Serial => None,
    }
}

} // verus!
