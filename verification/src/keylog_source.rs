//! Keeps the keylog fresh while its file goes on growing.
//!
//! The file is read again once an interval has passed since the last attempt, and at once when a
//! record found no key and the file's time or size shows that it changed. Reading the file is the
//! caller's part: the source says when to, and takes in what was read.

use vstd::prelude::*;
use vstd::string::*;
use vstd::utf8::encode_utf8;
use crate::keylog::{entries_of, Keylog, SecretEntry};
use crate::time::{elapsed, elapsed_between, Duration};

verus! {

/// What shows whether a file has changed: its modification time, counted from the epoch, and its
/// length, as far as they could be had.
#[derive(Clone, Copy, Debug, PartialEq, Eq, Structural)]
pub struct FileSignature {
    pub modified: Option<u128>,
    pub len: Option<u64>,
}

/// A file's text, and its signature when it was read.
pub struct KeylogRead {
    pub text: String,
    pub signature: FileSignature,
}

pub struct KeylogSource {
    has_file: bool,
    reload_interval: Duration,
    last_reload_attempt: Duration,
    last_seen: FileSignature,
    current: Keylog,
}

/// What a `KeylogSource` holds. Times are readings of the caller's clock, in nanoseconds.
pub struct SourceModel {
    pub has_file: bool,
    pub reload_interval: nat,
    pub last_reload_attempt: nat,
    pub last_seen: FileSignature,
    pub current: Seq<SecretEntry>,
}

impl View for KeylogSource {
    type V = SourceModel;

    closed spec fn view(&self) -> SourceModel {
        SourceModel {
            has_file: self.has_file,
            reload_interval: self.reload_interval@,
            last_reload_attempt: self.last_reload_attempt@,
            last_seen: self.last_seen,
            current: self.current@,
        }
    }
}

impl SourceModel {
    /// The interval since the last attempt has passed.
    pub open spec fn due(self, now: nat) -> bool {
        self.has_file && elapsed(self.last_reload_attempt, now) >= self.reload_interval
    }

    /// The file is not the one that was read last.
    pub open spec fn changed(self, signature: FileSignature) -> bool {
        self.has_file && signature != self.last_seen
    }

    /// The source after an attempt to read the file: what was read replaces what was known, and a
    /// failed attempt changes nothing but the time of the last one.
    pub open spec fn reloaded(self, now: nat, read: Option<KeylogRead>) -> SourceModel {
        if !self.has_file {
            self
        } else {
            match read {
                Some(read) => SourceModel {
                    last_reload_attempt: now,
                    last_seen: read.signature,
                    current: entries_of(encode_utf8(read.text@)),
                    ..self
                },
                None => SourceModel { last_reload_attempt: now, ..self },
            }
        }
    }
}

impl KeylogSource {
    /// A source over a file. `read` is what the file held; a file that does not exist yet is an
    /// empty keylog, and is picked up when it appears.
    pub fn open(read: Option<KeylogRead>, reload_interval: Duration, now: Duration) -> (source:
        KeylogSource)
        ensures
            source@.has_file,
            source@.reload_interval == reload_interval@,
            source@.last_reload_attempt == now@,
            match read {
                Some(read) => {
                    &&& source@.last_seen == read.signature
                    &&& source@.current == entries_of(encode_utf8(read.text@))
                },
                None => {
                    &&& source@.last_seen == (FileSignature { modified: None, len: None })
                    &&& source@.current == Seq::<SecretEntry>::empty()
                },
            },
    {
        proof {
            reveal_strlit("");
            assert(""@ =~= Seq::empty());
            assert(encode_utf8(""@) =~= Seq::empty());
        }
        let (current, last_seen) = match read {
            Some(read) => (Keylog::parse(read.text.as_str()), read.signature),
            None => (Keylog::parse(""), FileSignature { modified: None, len: None }),
        };
        KeylogSource {
            has_file: true,
            reload_interval,
            last_reload_attempt: now,
            last_seen,
            current,
        }
    }

    /// A source with no file behind it. It never has anything to read.
    pub fn from_parsed(keylog: Keylog) -> (source: KeylogSource)
        ensures
            !source@.has_file,
            source@.current == keylog@,
    {
        KeylogSource {
            has_file: false,
            reload_interval: Duration::zero(),
            last_reload_attempt: Duration::zero(),
            last_seen: FileSignature { modified: None, len: None },
            current: keylog,
        }
    }

    /// Whether the file is to be read again before the next decryption.
    pub fn poll(&self, now: Duration) -> (due: bool)
        ensures
            due == self@.due(now@),
    {
        self.has_file && elapsed_between(self.last_reload_attempt, now).as_nanos()
            >= self.reload_interval.as_nanos()
    }

    /// Whether there is a file to look at after a record found no key.
    pub fn has_file(&self) -> (yes: bool)
        ensures
            yes == self@.has_file,
    {
        self.has_file
    }

    /// Whether the file, which now has this signature, is to be read again after a record found no
    /// key. The interval does not matter here.
    pub fn poll_after_miss(&self, signature: FileSignature) -> (changed: bool)
        ensures
            changed == self@.changed(signature),
    {
        self.has_file && !(signature == self.last_seen)
    }

    /// The keylog as it was last read.
    pub fn current(&self) -> (keylog: &Keylog)
        ensures
            keylog@ == self@.current,
    {
        &self.current
    }

    /// Takes in an attempt to read the file. One that failed keeps the keylog that is known.
    pub fn reload(&mut self, now: Duration, read: Option<KeylogRead>)
        ensures
            final(self)@ == old(self)@.reloaded(now@, read),
    {
        if !self.has_file {
            return;
        }
        self.last_reload_attempt = now;
        if let Some(read) = read {
            self.last_seen = read.signature;
            self.current = Keylog::parse(read.text.as_str());
        }
    }
}

/// A source with no file behind it never asks for one and never changes.
pub proof fn law_static_source_never_reloads(
    source: SourceModel,
    now: nat,
    signature: FileSignature,
    read: Option<KeylogRead>,
)
    requires
        !source.has_file,
    ensures
        !source.due(now),
        !source.changed(signature),
        source.reloaded(now, read) == source,
{
}

/// An attempt to read the file that fails loses no secret, and the file is looked at again on the
/// next miss just as before.
pub proof fn law_failed_read_keeps_the_keylog(
    source: SourceModel,
    now: nat,
    signature: FileSignature,
)
    ensures
        source.reloaded(now, None).current == source.current,
        source.reloaded(now, None).changed(signature) == source.changed(signature),
{
}

/// The file is not read more often than it needs to be: after a reading, a miss asks for no other
/// until the file's signature differs, and without a miss none is due before the interval has
/// passed.
pub proof fn law_unchanged_file_is_not_read_again(
    source: SourceModel,
    now: nat,
    read: KeylogRead,
    later: nat,
    signature: FileSignature,
)
    requires
        source.has_file,
    ensures
        source.reloaded(now, Some(read)).changed(signature) <==> signature != read.signature,
        source.reloaded(now, Some(read)).due(later) <==> elapsed(now, later)
            >= source.reload_interval,
        source.reloaded(now, Some(read)).current == entries_of(encode_utf8(read.text@)),
{
}

/// A file is read again once the interval since the last attempt has passed, and not before.
pub proof fn law_due_after_the_interval(s: SourceModel, now: nat)
    requires
        s.has_file,
        s.reload_interval > 0,
    ensures
        s.due(now) <==> now >= s.last_reload_attempt + s.reload_interval,
{
}

/// What is read replaces all that was known before: the secrets are those that the text logs, and
/// the file is the one read last.
pub proof fn law_read_replaces_what_was_known(s: SourceModel, now: nat, read: KeylogRead)
    requires
        s.has_file,
    ensures
        ({
            let after = s.reloaded(now, Some(read));
            &&& after.current == entries_of(encode_utf8(read.text@))
            &&& after.last_seen == read.signature
            &&& !after.changed(read.signature)
            &&& after.last_reload_attempt == now
            &&& after.reload_interval == s.reload_interval
            &&& after.has_file
        }),
{
}

} // verus!
