//! The rules that command-line options have to keep.

use vstd::prelude::*;
use vstd::string::*;
use crate::rotation::RotateBy;
use crate::text::{dec, push_dec, text_equal};
use crate::time::{Duration, NANOS_PER_SEC};

verus! {

/// The output formats.
#[derive(Clone, Copy, Debug, PartialEq, Eq, Structural)]
pub enum OutputFormat {
    Ek,
    Ndjson,
}

/// The options that depend on each other.
pub struct Options {
    pub rotate_count: Option<u64>,
    pub rotate_seconds: Option<u64>,
    pub format: String,
    pub packet_log: bool,
    pub ndjson_explode: bool,
    pub ndjson_map: bool,
    pub compress: Option<String>,
    pub compress_level: u32,
}

/// Why options cannot be served.
pub enum UsageError {
    BothRotations,
    UnknownFormat { format: String },
    PacketLogNeedsNdjson,
    ExplodeNeedsNdjson,
    MapNeedsNdjson,
    UnknownCompression { compress: String },
    CompressLevelTooHigh { level: u32 },
}

impl UsageError {
    pub open spec fn text(self) -> Seq<char> {
        match self {
            UsageError::BothRotations =>
                "--rotate-count and --rotate-seconds are mutually exclusive"@,
            UsageError::UnknownFormat { format } => "-T must be 'ek' or 'ndjson' (got: "@ + format@
                + ")"@,
            UsageError::PacketLogNeedsNdjson =>
                "--packet-log requires -T ndjson (packet events have no -T ek representation)"@,
            UsageError::ExplodeNeedsNdjson => "--ndjson-explode requires -T ndjson"@,
            UsageError::MapNeedsNdjson => "--ndjson-map requires -T ndjson"@,
            UsageError::UnknownCompression { compress } =>
                "--compress only supports 'gzip' (got: "@ + compress@ + ")"@,
            UsageError::CompressLevelTooHigh { level } =>
                "--compress-level must be between 0 and 9 (got: "@ + dec(level as nat) + ")"@,
        }
    }

    pub fn message(&self) -> (out: String)
        ensures
            out@ == self.text(),
    {
        let mut out = String::new();
        match self {
            UsageError::BothRotations => {
                out.append("--rotate-count and --rotate-seconds are mutually exclusive");
            },
            UsageError::UnknownFormat { format } => {
                out.append("-T must be 'ek' or 'ndjson' (got: ");
                out.append(format.as_str());
                out.append(")");
            },
            UsageError::PacketLogNeedsNdjson => {
                out.append(
                    "--packet-log requires -T ndjson (packet events have no -T ek representation)",
                );
            },
            UsageError::ExplodeNeedsNdjson => {
                out.append("--ndjson-explode requires -T ndjson");
            },
            UsageError::MapNeedsNdjson => {
                out.append("--ndjson-map requires -T ndjson");
            },
            UsageError::UnknownCompression { compress } => {
                out.append("--compress only supports 'gzip' (got: ");
                out.append(compress.as_str());
                out.append(")");
            },
            UsageError::CompressLevelTooHigh { level } => {
                out.append("--compress-level must be between 0 and 9 (got: ");
                push_dec(&mut out, *level as u128);
                out.append(")");
            },
        }
        assert(out@ =~= self.text());
        out
    }
}

/// What valid options amount to.
pub struct Settings {
    pub format: OutputFormat,
    pub rotate_by: RotateBy,
}

pub open spec fn format_named(name: Seq<char>) -> Option<OutputFormat> {
    if name == "ek"@ {
        Some(OutputFormat::Ek)
    } else if name == "ndjson"@ {
        Some(OutputFormat::Ndjson)
    } else {
        None
    }
}

impl Options {
    /// The options use something that only one-object-per-line output has.
    pub open spec fn needs_ndjson(&self) -> bool {
        self.packet_log || self.ndjson_explode || self.ndjson_map
    }

    /// The options can be served.
    pub open spec fn valid(&self) -> bool {
        &&& !(self.rotate_count is Some && self.rotate_seconds is Some)
        &&& format_named(self.format@) is Some
        &&& self.needs_ndjson() ==> format_named(self.format@) == Some(OutputFormat::Ndjson)
        &&& self.compress matches Some(c) ==> c@ == "gzip"@
        &&& self.compress_level <= 9
    }

    /// Checks the options. The first rule broken is the one reported, in the order of the
    /// `UsageError`s.
    pub fn validate(&self) -> (result: Result<Settings, UsageError>)
        ensures
            result is Ok <==> self.valid(),
            match result {
                Ok(settings) => {
                    &&& format_named(self.format@) == Some(settings.format)
                    &&& match (self.rotate_count, self.rotate_seconds) {
                        (Some(n), _) => settings.rotate_by == RotateBy::Count(n),
                        (None, Some(s)) => settings.rotate_by matches RotateBy::Seconds(d) && d@
                            == s * NANOS_PER_SEC,
                        (None, None) => settings.rotate_by == RotateBy::Never,
                    }
                },
                Err(UsageError::BothRotations) => self.rotate_count is Some
                    && self.rotate_seconds is Some,
                Err(UsageError::UnknownFormat { format }) => {
                    &&& !(self.rotate_count is Some && self.rotate_seconds is Some)
                    &&& format_named(self.format@) is None
                    &&& format@ == self.format@
                },
                Err(UsageError::PacketLogNeedsNdjson) => {
                    &&& !(self.rotate_count is Some && self.rotate_seconds is Some)
                    &&& format_named(self.format@) == Some(OutputFormat::Ek)
                    &&& self.packet_log
                },
                Err(UsageError::ExplodeNeedsNdjson) => {
                    &&& !(self.rotate_count is Some && self.rotate_seconds is Some)
                    &&& format_named(self.format@) == Some(OutputFormat::Ek)
                    &&& !self.packet_log
                    &&& self.ndjson_explode
                },
                Err(UsageError::MapNeedsNdjson) => {
                    &&& !(self.rotate_count is Some && self.rotate_seconds is Some)
                    &&& format_named(self.format@) == Some(OutputFormat::Ek)
                    &&& !self.packet_log
                    &&& !self.ndjson_explode
                    &&& self.ndjson_map
                },
                Err(UsageError::UnknownCompression { compress }) => {
                    &&& !(self.rotate_count is Some && self.rotate_seconds is Some)
                    &&& format_named(self.format@) is Some
                    &&& self.needs_ndjson() ==> format_named(self.format@) == Some(
                        OutputFormat::Ndjson,
                    )
                    &&& self.compress matches Some(c) && c@ == compress@ && c@ != "gzip"@
                },
                Err(UsageError::CompressLevelTooHigh { level }) => {
                    &&& !(self.rotate_count is Some && self.rotate_seconds is Some)
                    &&& format_named(self.format@) is Some
                    &&& self.needs_ndjson() ==> format_named(self.format@) == Some(
                        OutputFormat::Ndjson,
                    )
                    &&& self.compress matches Some(c) ==> c@ == "gzip"@
                    &&& level == self.compress_level
                    &&& level > 9
                },
            },
    {
        proof {
            reveal_strlit("ek");
            reveal_strlit("ndjson");
            assert("ek"@.len() == 2 && "ndjson"@.len() == 6);
        }
        if self.rotate_count.is_some() && self.rotate_seconds.is_some() {
            return Err(UsageError::BothRotations);
        }
        let format = if text_equal(self.format.as_str(), "ek") {
            OutputFormat::Ek
        } else if text_equal(self.format.as_str(), "ndjson") {
            OutputFormat::Ndjson
        } else {
            return Err(UsageError::UnknownFormat { format: self.format.clone() });
        };
        let ndjson = format == OutputFormat::Ndjson;
        if self.packet_log && !ndjson {
            return Err(UsageError::PacketLogNeedsNdjson);
        }
        if self.ndjson_explode && !ndjson {
            return Err(UsageError::ExplodeNeedsNdjson);
        }
        if self.ndjson_map && !ndjson {
            return Err(UsageError::MapNeedsNdjson);
        }
        if let Some(compress) = &self.compress {
            if !text_equal(compress.as_str(), "gzip") {
                return Err(UsageError::UnknownCompression { compress: compress.clone() });
            }
        }
        if self.compress_level > 9 {
            return Err(UsageError::CompressLevelTooHigh { level: self.compress_level });
        }
        let rotate_by = match (self.rotate_count, self.rotate_seconds) {
            (Some(n), _) => RotateBy::Count(n),
            (None, Some(s)) => RotateBy::Seconds(Duration::from_secs(s)),
            (None, None) => RotateBy::Never,
        };
        Ok(Settings { format, rotate_by })
    }
}

/// An interval given in seconds, where zero switches it off.
pub fn optional_secs(secs: u64) -> (interval: Option<Duration>)
    ensures
        match interval {
            Some(d) => secs > 0 && d@ == secs * NANOS_PER_SEC,
            None => secs == 0,
        },
{
    if secs == 0 {
        None
    } else {
        Some(Duration::from_secs(secs))
    }
}

/// What options need to be served: at most one rule of rotation, a format that there is, the format
/// of one object per line for what only it has, no compression but gzip, and a level of nine at
/// most. Nothing else keeps them from being served.
pub proof fn law_options_that_can_be_served(options: Options)
    ensures
        options.valid() <==> {
            &&& options.rotate_count is None || options.rotate_seconds is None
            &&& options.format@ == "ndjson"@ || (options.format@ == "ek"@ && !options.packet_log
                && !options.ndjson_explode && !options.ndjson_map)
            &&& options.compress is None || (options.compress->0)@ == "gzip"@
            &&& options.compress_level < 10
        },
{
    reveal_strlit("ek");
    reveal_strlit("ndjson");
    assert("ek"@.len() == 2 && "ndjson"@.len() == 6);
}

} // verus!
