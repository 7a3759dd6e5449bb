//! Topic scheme for the fixed-format bus namespace.
//!
//! A topic both names a device and says which telemetry kind it
//! carries. The scheme is a pure mapping in both directions: from a
//! device name to its three canonical topics, and from a topic back to
//! the telemetry kind and device name.

use vstd::prelude::*;
use crate::strutil::{
    spec_ends_with, spec_substring_of, spec_trim_end_all, spec_trim_start_all, str_ends_with,
    str_eq, trim_end_matches, trim_start_matches,
};

verus! {

/// The kind of telemetry a topic carries.
#[derive(Clone, Copy, Debug, PartialEq, Eq, Structural)]
pub enum TelemetryType {
    /// A sensor report (numeric readings).
    Sensor,
    /// A status report (power state, uptime, diagnostics).
    State,
    /// A last-will liveness message (plain text, never numeric).
    Lwt,
}

/// A pure mapping between device names and bus topics.
///
/// Every executable method is pinned to a spec function, so code that
/// is generic over the scheme can reason about exactly which topics a
/// device owns.
pub trait TopicGenerator {
    spec fn spec_sensor_topic(name: Seq<char>) -> Seq<char>;

    spec fn spec_state_topic(name: Seq<char>) -> Seq<char>;

    spec fn spec_lwt_topic(name: Seq<char>) -> Seq<char>;

    spec fn spec_telemetry_type(topic: Seq<char>) -> Option<TelemetryType>;

    spec fn spec_extract_device_name(topic: Seq<char>) -> Option<Seq<char>>;

    /// The topic on which the device publishes sensor reports.
    fn sensor_telemetry_topic(device_name: &str) -> (r: String)
        ensures
            r@ == Self::spec_sensor_topic(device_name@),
    ;

    /// The topic on which the device publishes status reports.
    fn state_telemetry_topic(device_name: &str) -> (r: String)
        ensures
            r@ == Self::spec_state_topic(device_name@),
    ;

    /// The topic on which the device's transport publishes its last
    /// will.
    fn lwt_topic(device_name: &str) -> (r: String)
        ensures
            r@ == Self::spec_lwt_topic(device_name@),
    ;

    /// Which telemetry kind a topic carries, if it is recognized.
    fn telemetry_type(topic: &str) -> (r: Option<TelemetryType>)
        ensures
            r == Self::spec_telemetry_type(topic@),
    ;

    /// The device name embedded in a topic, if one can be read off.
    fn extract_device_name<'a>(topic: &'a str) -> (r: Option<&'a str>)
        ensures
            match r {
                Option::Some(s) => Self::spec_extract_device_name(topic@) == Option::Some(s@),
                Option::None => Self::spec_extract_device_name(topic@) is None,
            },
    ;
}

/// The fixed-format scheme: `tasmota/tele/<name>/SENSOR`,
/// `tasmota/tele/<name>/STATE` and `tasmota/tele/<name>/LWT`.
#[derive(Clone, Copy, Debug)]
pub struct HomeTasmotaTopicScheme;

impl TopicGenerator for HomeTasmotaTopicScheme {
    open spec fn spec_sensor_topic(name: Seq<char>) -> Seq<char> {
        "tasmota/tele/"@ + name + "/SENSOR"@
    }

    open spec fn spec_state_topic(name: Seq<char>) -> Seq<char> {
        "tasmota/tele/"@ + name + "/STATE"@
    }

    open spec fn spec_lwt_topic(name: Seq<char>) -> Seq<char> {
        "tasmota/tele/"@ + name + "/LWT"@
    }

    open spec fn spec_telemetry_type(topic: Seq<char>) -> Option<TelemetryType> {
        if spec_ends_with(topic, "/SENSOR"@) {
            Option::Some(TelemetryType::Sensor)
        } else if spec_ends_with(topic, "/STATE"@) {
            Option::Some(TelemetryType::State)
        } else if spec_ends_with(topic, "/LWT"@) {
            Option::Some(TelemetryType::Lwt)
        } else {
            Option::None
        }
    }

    open spec fn spec_extract_device_name(topic: Seq<char>) -> Option<Seq<char>> {
        Option::Some(
            spec_trim_end_all(
                spec_trim_end_all(
                    spec_trim_end_all(
                        spec_trim_start_all(topic, "tasmota/tele/"@),
                        "/SENSOR"@,
                    ),
                    "/STATE"@,
                ),
                "/LWT"@,
            ),
        )
    }

    fn sensor_telemetry_topic(device_name: &str) -> (r: String) {
        String::from_str("tasmota/tele/").concat(device_name).concat("/SENSOR")
    }

    fn state_telemetry_topic(device_name: &str) -> (r: String) {
        String::from_str("tasmota/tele/").concat(device_name).concat("/STATE")
    }

    fn lwt_topic(device_name: &str) -> (r: String) {
        String::from_str("tasmota/tele/").concat(device_name).concat("/LWT")
    }

    fn telemetry_type(topic: &str) -> (r: Option<TelemetryType>) {
        if str_ends_with(topic, "/SENSOR") {
            Some(TelemetryType::Sensor)
        } else if str_ends_with(topic, "/STATE") {
            Some(TelemetryType::State)
        } else if str_ends_with(topic, "/LWT") {
            Some(TelemetryType::Lwt)
        } else {
            None
        }
    }

    fn extract_device_name<'a>(topic: &'a str) -> (r: Option<&'a str>) {
        let step = trim_start_matches(topic, "tasmota/tele/");
        let step = trim_end_matches(step, "/SENSOR");
        let step = trim_end_matches(step, "/STATE");
        let step = trim_end_matches(step, "/LWT");
        Some(step)
    }
}

/// A topic scheme chosen at construction time: maps a topic to the
/// device that owns it and to the telemetry kind it carries.
pub trait TopicScheme {
    /// The device id embedded in the topic, if the scheme recognizes
    /// one; what is returned is always a contiguous piece of the topic.
    fn get_device_id<'a>(&self, topic: &'a str) -> (r: Option<&'a str>)
        ensures
            match r {
                Option::Some(s) => spec_substring_of(s@, topic@),
                Option::None => true,
            },
    ;

    /// The telemetry kind named by the topic, if any. Last-will topics
    /// yield `None` here: they carry no numeric telemetry and must not
    /// reach the pairing pipeline.
    fn get_telemetry_type(&self, topic: &str) -> (r: Option<TelemetryType>);
}

/// The error for a topic pattern that does not compile; it carries the
/// pattern compiler's description of the fault.
#[derive(Debug)]
pub struct PatternError(pub String);

/// Whether a pattern text is a valid regular expression (what
/// `regex::Regex::new` accepts); a function of the pattern text alone.
pub uninterp spec fn spec_pattern_valid(pattern: Seq<char>) -> bool;

/// The text of a named capture group when a pattern is matched against
/// a haystack: `None` when the pattern does not match or has no such
/// group. A regex match is a function of the pattern text, the group
/// name and the haystack alone.
pub uninterp spec fn spec_capture(
    pattern: Seq<char>,
    group: Seq<char>,
    haystack: Seq<char>,
) -> Option<Seq<char>>;

/// A scheme built from two regular expressions: one with a capture
/// group named `device_id`, one with a capture group named
/// `telemetry_type`. Each compiled regex is stored next to the exact
/// pattern text it was compiled from; the fields are private, so every
/// value of this type keeps that pairing.
#[derive(Debug)]
pub struct RegexTopicScheme {
    device_id_re: regex::Regex,
    device_id_pattern: String,
    telemetry_type_re: regex::Regex,
    telemetry_type_pattern: String,
}

#[verifier::external_type_specification]
#[verifier::external_body]
pub struct ExRegex(regex::Regex);

/// Relies on regex::Regex::new: compilation succeeds exactly for valid
/// patterns, deterministically in the pattern text; the error's
/// description is handed back as text.
#[verifier::external_body]
fn compile_pattern(pattern: &str) -> (r: Result<regex::Regex, String>)
    ensures
        r is Ok <==> spec_pattern_valid(pattern@),
{
    match regex::Regex::new(pattern) {
        Ok(re) => Ok(re),
        Err(error) => Err(error.to_string()),
    }
}

/// Relies on regex::Regex::captures, regex::Captures::name and
/// regex::Match::as_str: the named capture is a function of the pattern
/// and the haystack alone (the private fields pair the compiled regex
/// with its pattern text, established by `new`), and the captured text
/// is a contiguous piece of the haystack.
#[verifier::external_body]
fn capture_device_id<'h>(scheme: &RegexTopicScheme, topic: &'h str) -> (r: Option<&'h str>)
    ensures
        (match r {
            Option::Some(s) => Option::Some(s@),
            Option::None => Option::<Seq<char>>::None,
        }) == spec_capture(scheme.spec_device_pattern(), "device_id"@, topic@),
        r matches Option::Some(s) ==> spec_substring_of(s@, topic@),
{
    match scheme.device_id_re.captures(topic) {
        None => None,
        Some(caps) => match caps.name("device_id") {
            None => None,
            Some(m) => Some(m.as_str()),
        },
    }
}

/// Relies on the same regex functions as `capture_device_id`, for the
/// telemetry-type pattern and its group.
#[verifier::external_body]
fn capture_telemetry_type<'h>(scheme: &RegexTopicScheme, topic: &'h str) -> (r: Option<&'h str>)
    ensures
        (match r {
            Option::Some(s) => Option::Some(s@),
            Option::None => Option::<Seq<char>>::None,
        }) == spec_capture(scheme.spec_type_pattern(), "telemetry_type"@, topic@),
        r matches Option::Some(s) ==> spec_substring_of(s@, topic@),
{
    match scheme.telemetry_type_re.captures(topic) {
        None => None,
        Some(caps) => match caps.name("telemetry_type") {
            None => None,
            Some(m) => Some(m.as_str()),
        },
    }
}

/// The kind a captured telemetry-type token names: `SENSOR` and `STATE`
/// route to the pairing pipeline; `LWT` and every unrecognized token
/// carry no numeric telemetry and yield nothing.
pub open spec fn spec_token_kind(token: Option<Seq<char>>) -> Option<TelemetryType> {
    match token {
        Option::Some(t) => if t == "SENSOR"@ {
            Option::Some(TelemetryType::Sensor)
        } else if t == "STATE"@ {
            Option::Some(TelemetryType::State)
        } else {
            Option::None
        },
        Option::None => Option::None,
    }
}

/// Maps a captured telemetry-type token to the kind it names.
pub fn token_kind(token: &str) -> (r: Option<TelemetryType>)
    ensures
        r == spec_token_kind(Option::Some(token@)),
{
    if str_eq(token, "SENSOR") {
        Some(TelemetryType::Sensor)
    } else if str_eq(token, "STATE") {
        Some(TelemetryType::State)
    } else {
        None
    }
}

impl RegexTopicScheme {
    /// The pattern text the device-id regex was compiled from.
    pub closed spec fn spec_device_pattern(&self) -> Seq<char> {
        self.device_id_pattern@
    }

    /// The pattern text the telemetry-type regex was compiled from.
    pub closed spec fn spec_type_pattern(&self) -> Seq<char> {
        self.telemetry_type_pattern@
    }

    /// Compiles the two patterns. Succeeds exactly when both are valid
    /// regular expressions; the error carries the first compiler
    /// message.
    pub fn new(device_id_re: &str, telemetry_type_re: &str) -> (r: Result<
        RegexTopicScheme,
        PatternError,
    >)
        ensures
            r is Ok <==> (spec_pattern_valid(device_id_re@) && spec_pattern_valid(
                telemetry_type_re@,
            )),
            r matches Result::Ok(scheme) ==> scheme.spec_device_pattern() == device_id_re@
                && scheme.spec_type_pattern() == telemetry_type_re@,
    {
        let device_re = match compile_pattern(device_id_re) {
            Ok(re) => re,
            Err(cause) => {
                return Err(PatternError(cause));
            },
        };
        let type_re = match compile_pattern(telemetry_type_re) {
            Ok(re) => re,
            Err(cause) => {
                return Err(PatternError(cause));
            },
        };
        Ok(
            RegexTopicScheme {
                device_id_re: device_re,
                device_id_pattern: device_id_re.to_owned(),
                telemetry_type_re: type_re,
                telemetry_type_pattern: telemetry_type_re.to_owned(),
            },
        )
    }

    /// The device id a topic carries: the `device_id` capture of the
    /// device-id pattern.
    pub fn device_id_of<'a>(&self, topic: &'a str) -> (r: Option<&'a str>)
        ensures
            (match r {
                Option::Some(s) => Option::Some(s@),
                Option::None => Option::<Seq<char>>::None,
            }) == spec_capture(self.spec_device_pattern(), "device_id"@, topic@),
            r matches Option::Some(s) ==> spec_substring_of(s@, topic@),
    {
        capture_device_id(self, topic)
    }

    /// The telemetry kind a topic carries: the `telemetry_type` capture
    /// of the type pattern, mapped through `spec_token_kind`.
    pub fn telemetry_type_of(&self, topic: &str) -> (r: Option<TelemetryType>)
        ensures
            r == spec_token_kind(spec_capture(self.spec_type_pattern(), "telemetry_type"@, topic@)),
    {
        match capture_telemetry_type(self, topic) {
            None => None,
            Some(token) => token_kind(token),
        }
    }
}

impl TopicScheme for RegexTopicScheme {
    fn get_device_id<'a>(&self, topic: &'a str) -> (r: Option<&'a str>) {
        self.device_id_of(topic)
    }

    fn get_telemetry_type(&self, topic: &str) -> (r: Option<TelemetryType>) {
        self.telemetry_type_of(topic)
    }
}

} // verus!
