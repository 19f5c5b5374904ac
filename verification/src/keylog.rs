//! Session secrets from a keylog in the SSLKEYLOGFILE format: one secret per line, as a label, the
//! client random and the secret, the last two in hexadecimal. Lines of another form, comments
//! among them, are passed over. Secrets are never pruned.

use vstd::hash_map::StringHashMap;
use vstd::prelude::*;
use vstd::slice::slice_subrange;
use vstd::string::*;
use crate::bytes::bytes_equal;
use crate::fields::{
    after_line, contents, is_space, law_line_ends_at_the_line_feed,
    law_words_stand_between_white_space, lemma_line_len_bound, line_end, line_len, split_words,
    words,
};
use crate::text::{
    digit, hex_decode, hex_encode, hex_of, law_digits_read_back, lemma_hex_injective, unhex,
};

verus! {

/// What a logged secret is for.
#[derive(Clone, Copy, Debug, PartialEq, Eq, Hash, Structural)]
pub enum SecretLabel {
    /// The TLS 1.2 master secret.
    ClientRandom,
    ClientHandshakeTrafficSecret,
    ServerHandshakeTrafficSecret,
    ClientTrafficSecret0,
    ServerTrafficSecret0,
}

/// One line's secret.
pub struct SecretEntry {
    pub label: SecretLabel,
    pub client_random: Seq<u8>,
    pub secret: Seq<u8>,
}

pub open spec fn label_named(word: Seq<u8>) -> Option<SecretLabel> {
    if word == "CLIENT_RANDOM".spec_bytes() {
        Some(SecretLabel::ClientRandom)
    } else if word == "CLIENT_HANDSHAKE_TRAFFIC_SECRET".spec_bytes() {
        Some(SecretLabel::ClientHandshakeTrafficSecret)
    } else if word == "SERVER_HANDSHAKE_TRAFFIC_SECRET".spec_bytes() {
        Some(SecretLabel::ServerHandshakeTrafficSecret)
    } else if word == "CLIENT_TRAFFIC_SECRET_0".spec_bytes() {
        Some(SecretLabel::ClientTrafficSecret0)
    } else if word == "SERVER_TRAFFIC_SECRET_0".spec_bytes() {
        Some(SecretLabel::ServerTrafficSecret0)
    } else {
        None
    }
}

/// The secret that a line logs: it has exactly three words, a known label and two strings of
/// hexadecimal digits.
pub open spec fn entry_of(line: Seq<u8>) -> Option<SecretEntry> {
    let w = words(line);
    if w.len() != 3 {
        None
    } else {
        match (label_named(w[0]), unhex(w[1]), unhex(w[2])) {
            (Some(label), Some(client_random), Some(secret)) => Some(
                SecretEntry { label, client_random, secret },
            ),
            _ => None,
        }
    }
}

/// The secrets that a keylog logs, in order.
pub open spec fn entries_of(text: Seq<u8>) -> Seq<SecretEntry>
    decreases text.len(),
{
    if text.len() == 0 {
        Seq::empty()
    } else {
        let rest = if after_line(text).len() < text.len() {
            entries_of(after_line(text))
        } else {
            Seq::empty()
        };
        match entry_of(text.take(line_len(text) as int)) {
            Some(entry) => seq![entry] + rest,
            None => rest,
        }
    }
}

/// The secret that the last matching entry logs.
pub open spec fn last_secret(
    entries: Seq<SecretEntry>,
    client_random: Seq<u8>,
    label: SecretLabel,
) -> Option<Seq<u8>>
    decreases entries.len(),
{
    if entries.len() == 0 {
        None
    } else if entries.last().client_random == client_random && entries.last().label == label {
        Some(entries.last().secret)
    } else {
        last_secret(entries.drop_last(), client_random, label)
    }
}

/// `client_random` occurs in one of the entries.
pub open spec fn mentions(entries: Seq<SecretEntry>, client_random: Seq<u8>) -> bool {
    exists|i: int| 0 <= i < entries.len() && (#[trigger] entries[i]).client_random == client_random
}

/// The number of different client randoms.
pub open spec fn distinct_randoms(entries: Seq<SecretEntry>) -> nat
    decreases entries.len(),
{
    if entries.len() == 0 {
        0
    } else {
        distinct_randoms(entries.drop_last()) + if mentions(
            entries.drop_last(),
            entries.last().client_random,
        ) {
            0nat
        } else {
            1nat
        }
    }
}

spec fn label_mark(label: SecretLabel) -> char {
    match label {
        SecretLabel::ClientRandom => 'm',
        SecretLabel::ClientHandshakeTrafficSecret => 'h',
        SecretLabel::ServerHandshakeTrafficSecret => 'H',
        SecretLabel::ClientTrafficSecret0 => 'a',
        SecretLabel::ServerTrafficSecret0 => 'A',
    }
}

spec fn index_key(client_random: Seq<u8>, label: SecretLabel) -> Seq<char> {
    hex_of(client_random).push(label_mark(label))
}

/// The secrets of a keylog, indexed by client random and label. Its view is the secrets logged, in
/// order.
pub struct Keylog {
    secrets: StringHashMap<Vec<u8>>,
    randoms: StringHashMap<bool>,
    entries: Ghost<Seq<SecretEntry>>,
}

impl View for Keylog {
    type V = Seq<SecretEntry>;

    closed spec fn view(&self) -> Seq<SecretEntry> {
        self.entries@
    }
}

/// The index holds the latest secret that the entries log, under each client random and label.
spec fn indexes(secrets: Map<Seq<char>, Vec<u8>>, entries: Seq<SecretEntry>) -> bool {
    forall|client_random: Seq<u8>, label: SecretLabel|
        match #[trigger] last_secret(entries, client_random, label) {
            Some(secret) => secrets.contains_key(index_key(client_random, label)) && secrets[index_key(
                client_random,
                label,
            )]@ == secret,
            None => !secrets.contains_key(index_key(client_random, label)),
        }
}

/// The client randoms are those that the entries mention.
spec fn counts(randoms: Map<Seq<char>, bool>, entries: Seq<SecretEntry>) -> bool {
    &&& randoms.dom().finite()
    &&& randoms.dom().len() == distinct_randoms(entries)
    &&& forall|client_random: Seq<u8>|
        randoms.contains_key(hex_of(client_random)) <==> #[trigger] mentions(
            entries,
            client_random,
        )
}

impl Keylog {
    #[verifier::type_invariant]
    spec fn indexed(&self) -> bool {
        indexes(self.secrets@, self.entries@) && counts(self.randoms@, self.entries@)
    }

    /// The number of client randoms for which secrets are known.
    pub fn entry_count(&self) -> (n: usize)
        ensures
            n == distinct_randoms(self@),
    {
        proof {
            use_type_invariant(self);
        }
        self.randoms.len()
    }

    /// Reads a keylog.
    pub fn parse(text: &str) -> (keylog: Keylog)
        ensures
            keylog@ == entries_of(text.spec_bytes()),
    {
        let data = text.as_bytes();
        let mut secrets: StringHashMap<Vec<u8>> = StringHashMap::new();
        let mut randoms: StringHashMap<bool> = StringHashMap::new();
        let mut i: usize = 0;
        let ghost mut done: Seq<SecretEntry> = Seq::empty();
        proof {
            assert(data@.skip(0) =~= data@);
            assert(done + entries_of(data@) =~= entries_of(data@));
            assert(randoms@.dom() =~= Set::empty());
        }
        while i < data.len()
            invariant
                i <= data@.len(),
                data@ == text.spec_bytes(),
                done + entries_of(data@.skip(i as int)) == entries_of(data@),
                indexes(secrets@, done),
                counts(randoms@, done),
            decreases data@.len() - i,
        {
            let ghost rest = data@.skip(i as int);
            let end = line_end(data, i);
            let line = slice_subrange(data, i, end);
            proof {
                lemma_line_len_bound(rest);
                assert(line@ =~= rest.take(line_len(rest) as int));
                let next = if end < data.len() { end + 1 } else { end as int };
                assert(after_line(rest) =~= data@.skip(next));
            }
            let ghost before = done;
            if let Some((label, client_random, secret)) = parse_entry(line) {
                let ghost entry = SecretEntry {
                    label,
                    client_random: client_random@,
                    secret: secret@,
                };
                let mut key = hex_encode(client_random.as_slice());
                proof {
                    lemma_count_one_more(randoms@, before, entry);
                    lemma_index_one_more(secrets@, before, entry, secret);
                    done = before.push(entry);
                    assert(done + entries_of(after_line(rest)) =~= before + (seq![entry]
                        + entries_of(after_line(rest))));
                }
                randoms.insert(key.clone(), true);
                key.push(mark_of(label));
                secrets.insert(key, secret);
            }
            i = if end < data.len() { end + 1 } else { end };
        }
        proof {
            assert(entries_of(data@.skip(i as int)) =~= Seq::empty());
            assert(done =~= entries_of(data@));
        }
        Keylog { secrets, randoms, entries: Ghost(done) }
    }

    /// The secret logged for `client_random` under `label`, the latest if there are several.
    pub fn secret_for(&self, client_random: &[u8], label: SecretLabel) -> (secret: Option<&[u8]>)
        ensures
            match secret {
                Some(secret) => last_secret(self@, client_random@, label) == Some(secret@),
                None => last_secret(self@, client_random@, label) is None,
            },
    {
        proof {
            use_type_invariant(self);
            assert(last_secret(self@, client_random@, label) is None || last_secret(
                self@,
                client_random@,
                label,
            ) is Some);
        }
        let mut key = hex_encode(client_random);
        key.push(mark_of(label));
        match self.secrets.get(key.as_str()) {
            Some(secret) => Some(secret.as_slice()),
            None => None,
        }
    }
}

proof fn lemma_index_one_more(
    secrets: Map<Seq<char>, Vec<u8>>,
    entries: Seq<SecretEntry>,
    entry: SecretEntry,
    secret: Vec<u8>,
)
    requires
        indexes(secrets, entries),
        entry.secret == secret@,
    ensures
        indexes(
            secrets.insert(index_key(entry.client_random, entry.label), secret),
            entries.push(entry),
        ),
{
    let more = entries.push(entry);
    let after = secrets.insert(index_key(entry.client_random, entry.label), secret);
    assert(more.drop_last() =~= entries);
    assert forall|r: Seq<u8>, l: SecretLabel|
        match #[trigger] last_secret(more, r, l) {
            Some(secret) => after.contains_key(index_key(r, l)) && after[index_key(r, l)]@
                == secret,
            None => !after.contains_key(index_key(r, l)),
        } by {
        let k = index_key(r, l);
        assert(last_secret(entries, r, l) is None || last_secret(entries, r, l) is Some);
        if k == index_key(entry.client_random, entry.label) {
            assert(k.drop_last() =~= hex_of(r));
            assert(k.drop_last() =~= hex_of(entry.client_random));
            lemma_hex_injective(r, entry.client_random);
            assert(k.last() == label_mark(l) && k.last() == label_mark(entry.label));
        }
    }
}

proof fn lemma_count_one_more(
    randoms: Map<Seq<char>, bool>,
    entries: Seq<SecretEntry>,
    entry: SecretEntry,
)
    requires
        counts(randoms, entries),
    ensures
        counts(randoms.insert(hex_of(entry.client_random), true), entries.push(entry)),
{
    let more = entries.push(entry);
    let after = randoms.insert(hex_of(entry.client_random), true);
    assert(more.drop_last() =~= entries);
    assert forall|r: Seq<u8>| after.contains_key(hex_of(r)) <==> #[trigger] mentions(more, r) by {
        assert(randoms.contains_key(hex_of(r)) <==> mentions(entries, r));
        if hex_of(r) == hex_of(entry.client_random) {
            lemma_hex_injective(r, entry.client_random);
        }
        if mentions(entries, r) {
            let i = choose|i: int|
                0 <= i < entries.len() && (#[trigger] entries[i]).client_random == r;
            assert(more[i].client_random == r);
        }
        if r == entry.client_random {
            assert(more[entries.len() as int].client_random == r);
        }
        if mentions(more, r) {
            let i = choose|i: int| 0 <= i < more.len() && (#[trigger] more[i]).client_random == r;
            if i < entries.len() {
                assert(entries[i].client_random == r);
            }
        }
    }
    assert(randoms.contains_key(hex_of(entry.client_random)) <==> mentions(
        entries,
        entry.client_random,
    ));
}

fn mark_of(label: SecretLabel) -> (mark: char)
    ensures
        mark == label_mark(label),
{
    match label {
        SecretLabel::ClientRandom => 'm',
        SecretLabel::ClientHandshakeTrafficSecret => 'h',
        SecretLabel::ServerHandshakeTrafficSecret => 'H',
        SecretLabel::ClientTrafficSecret0 => 'a',
        SecretLabel::ServerTrafficSecret0 => 'A',
    }
}

fn parse_label(word: &[u8]) -> (label: Option<SecretLabel>)
    ensures
        label == label_named(word@),
{
    if bytes_equal(word, "CLIENT_RANDOM".as_bytes()) {
        Some(SecretLabel::ClientRandom)
    } else if bytes_equal(word, "CLIENT_HANDSHAKE_TRAFFIC_SECRET".as_bytes()) {
        Some(SecretLabel::ClientHandshakeTrafficSecret)
    } else if bytes_equal(word, "SERVER_HANDSHAKE_TRAFFIC_SECRET".as_bytes()) {
        Some(SecretLabel::ServerHandshakeTrafficSecret)
    } else if bytes_equal(word, "CLIENT_TRAFFIC_SECRET_0".as_bytes()) {
        Some(SecretLabel::ClientTrafficSecret0)
    } else if bytes_equal(word, "SERVER_TRAFFIC_SECRET_0".as_bytes()) {
        Some(SecretLabel::ServerTrafficSecret0)
    } else {
        None
    }
}

fn parse_entry(line: &[u8]) -> (entry: Option<(SecretLabel, Vec<u8>, Vec<u8>)>)
    ensures
        match entry {
            Some((label, client_random, secret)) => entry_of(line@) == Some(
                SecretEntry { label, client_random: client_random@, secret: secret@ },
            ),
            None => entry_of(line@) is None,
        },
{
    let parts = split_words(line);
    assert(contents(parts@).len() == parts@.len());
    if parts.len() != 3 {
        return None;
    }
    assert(contents(parts@)[0] == parts@[0]@ && contents(parts@)[1] == parts@[1]@ && contents(
        parts@,
    )[2] == parts@[2]@);
    let label = parse_label(parts[0])?;
    let client_random = hex_decode(parts[1])?;
    let secret = hex_decode(parts[2])?;
    Some((label, client_random, secret))
}

/// Text that ends a line.
pub open spec fn ends_line(text: Seq<u8>) -> bool {
    text.len() == 0 || text.last() == 0x0a
}

/// A keylog that grows by whole lines logs what it logged before, and then what was appended.
pub proof fn law_appended_lines_come_last(text: Seq<u8>, more: Seq<u8>)
    requires
        ends_line(text),
    ensures
        entries_of(text + more) == entries_of(text) + entries_of(more),
    decreases text.len(),
{
    let all = text + more;
    if text.len() == 0 {
        assert(all =~= more);
        assert(entries_of(text) + entries_of(more) =~= entries_of(more));
    } else {
        lemma_line_within(text, more);
        let n = line_len(text);
        let rest = after_line(text);
        assert(all.take(n as int) =~= text.take(n as int));
        assert(after_line(all) =~= rest + more);
        assert(rest.len() > 0 ==> rest.last() == text.last());
        law_appended_lines_come_last(rest, more);
        assert(entries_of(all) =~= entries_of(text) + entries_of(more));
    }
}

/// The first line of a text that ends a line is the first line of any text that goes on from it.
proof fn lemma_line_within(text: Seq<u8>, more: Seq<u8>)
    requires
        text.len() > 0,
        text.last() == 0x0a,
    ensures
        line_len(text + more) == line_len(text),
        line_len(text) < text.len(),
    decreases text.len(),
{
    if text[0] != 0x0a {
        let rest = text.drop_first();
        assert(rest.len() > 0);
        assert(rest.last() == text.last());
        assert((text + more).drop_first() =~= rest + more);
        lemma_line_within(rest, more);
    }
}

/// A secret that is known stays known, or is replaced by a later one: no growth of the keylog
/// takes it away.
pub proof fn law_secrets_are_never_pruned(
    text: Seq<u8>,
    more: Seq<u8>,
    client_random: Seq<u8>,
    label: SecretLabel,
)
    requires
        ends_line(text),
    ensures
        last_secret(entries_of(text + more), client_random, label) == match last_secret(
            entries_of(more),
            client_random,
            label,
        ) {
            Some(secret) => Some(secret),
            None => last_secret(entries_of(text), client_random, label),
        },
        distinct_randoms(entries_of(text + more)) >= distinct_randoms(entries_of(text)),
{
    law_appended_lines_come_last(text, more);
    lemma_last_secret_of_two(entries_of(text), entries_of(more), client_random, label);
}

proof fn lemma_last_secret_of_two(
    a: Seq<SecretEntry>,
    b: Seq<SecretEntry>,
    client_random: Seq<u8>,
    label: SecretLabel,
)
    ensures
        last_secret(a + b, client_random, label) == match last_secret(b, client_random, label) {
            Some(secret) => Some(secret),
            None => last_secret(a, client_random, label),
        },
        distinct_randoms(a + b) >= distinct_randoms(a),
    decreases b.len(),
{
    if b.len() == 0 {
        assert(a + b =~= a);
    } else {
        assert((a + b).drop_last() =~= a + b.drop_last());
        assert((a + b).last() == b.last());
        lemma_last_secret_of_two(a, b.drop_last(), client_random, label);
    }
}

/// A line of a keylog is read by itself: what a text logs is what its first line logs, if that
/// logs anything, and then what the rest does.
pub proof fn law_each_line_logs_by_itself(line: Seq<u8>, rest: Seq<u8>)
    requires
        !line.contains(0x0a),
    ensures
        entries_of(line + seq![0x0au8] + rest) == match entry_of(line) {
            Some(entry) => seq![entry] + entries_of(rest),
            None => entries_of(rest),
        },
        line.len() > 0 ==> entries_of(line) == match entry_of(line) {
            Some(entry) => seq![entry],
            None => Seq::empty(),
        },
{
    let text = line + seq![0x0au8] + rest;
    law_line_ends_at_the_line_feed(line, rest);
    assert(text.take(line.len() as int) =~= line);
    assert(line.take(line.len() as int) =~= line);
    if line.len() > 0 {
        assert(entries_of(Seq::empty()) =~= Seq::empty());
        if let Some(entry) = entry_of(line) {
            assert(seq![entry] + Seq::empty() =~= seq![entry]);
        }
    }
}

/// The bytes are hexadecimal digits, of either case, that spell `data`.
pub open spec fn spells_bytes(digits: Seq<u8>, data: Seq<u8>) -> bool {
    &&& digits.len() == 2 * data.len()
    &&& forall|i: int|
        0 <= i < digits.len() ==> (#[trigger] digits[i]) as nat == hex_of(data)[i] as nat || (
        hex_of(data)[i] >= 'a' && digits[i] as nat + 0x20 == hex_of(data)[i] as nat)
}

proof fn lemma_digits_are_no_space(digits: Seq<u8>, data: Seq<u8>)
    requires
        spells_bytes(digits, data),
    ensures
        forall|i: int| 0 <= i < digits.len() ==> !is_space(#[trigger] digits[i]),
{
    assert forall|i: int| 0 <= i < digits.len() implies !is_space(#[trigger] digits[i]) by {
        let d = if i % 2 == 0 {
            data[i / 2] as nat / 16
        } else {
            data[i / 2] as nat % 16
        };
        assert(digit(d) as nat == if d < 10 { 0x30 + d } else { 0x57 + d });
        assert(hex_of(data)[i] == digit(d));
    }
}

/// A line that holds a known label, the digits of a random and the digits of a secret, with spaces
/// between them, logs this secret under this label and random.
pub proof fn law_line_logs_its_secret(
    word: Seq<u8>,
    label: SecretLabel,
    random: Seq<u8>,
    random_digits: Seq<u8>,
    secret: Seq<u8>,
    secret_digits: Seq<u8>,
)
    requires
        label_named(word) == Some(label),
        word.len() > 0,
        forall|i: int| 0 <= i < word.len() ==> !is_space(#[trigger] word[i]),
        random.len() > 0,
        secret.len() > 0,
        spells_bytes(random_digits, random),
        spells_bytes(secret_digits, secret),
    ensures
        entry_of(word + seq![0x20u8] + random_digits + seq![0x20u8] + secret_digits) == Some(
            SecretEntry { label, client_random: random, secret },
        ),
        entry_of(word + seq![0x20u8] + random_digits) is None,
{
    let line = word + seq![0x20u8] + random_digits + seq![0x20u8] + secret_digits;
    let none: Seq<u8> = Seq::empty();
    let gap = seq![0x20u8];
    lemma_digits_are_no_space(random_digits, random);
    lemma_digits_are_no_space(secret_digits, secret);
    let rest2 = gap + secret_digits;
    let rest1 = gap + random_digits + rest2;
    law_words_stand_between_white_space(none, word, rest1);
    law_words_stand_between_white_space(gap, random_digits, rest2);
    law_words_stand_between_white_space(gap, secret_digits, none);
    assert(gap + secret_digits + none =~= rest2);
    assert(none + word + rest1 =~= line);
    assert(words(none) =~= Seq::empty());
    assert(words(rest2) =~= seq![secret_digits]);
    assert(words(rest1) =~= seq![random_digits, secret_digits]);
    assert(words(line) =~= seq![word, random_digits, secret_digits]);
    law_digits_read_back(random, random_digits);
    law_digits_read_back(secret, secret_digits);
    let short = word + gap + random_digits;
    law_words_stand_between_white_space(none, word, gap + random_digits);
    law_words_stand_between_white_space(gap, random_digits, none);
    assert(gap + random_digits + none =~= gap + random_digits);
    assert(none + word + (gap + random_digits) =~= short);
    assert(words(gap + random_digits) =~= seq![random_digits]);
    assert(words(short).len() == 2);
}

/// The secret looked up is that of the last entry with the random and the label; without such an
/// entry there is none.
pub proof fn law_last_entry_counts(
    entries: Seq<SecretEntry>,
    client_random: Seq<u8>,
    label: SecretLabel,
    i: int,
)
    requires
        -1 <= i < entries.len(),
        i >= 0 ==> entries[i].client_random == client_random && entries[i].label == label,
        forall|j: int|
            i < j < entries.len() ==> !((#[trigger] entries[j]).client_random == client_random
                && entries[j].label == label),
    ensures
        i >= 0 ==> last_secret(entries, client_random, label) == Some(entries[i].secret),
        i == -1 ==> last_secret(entries, client_random, label) is None,
    decreases entries.len(),
{
    if entries.len() > 0 && i < entries.len() - 1 {
        assert(entries.last() == entries[entries.len() - 1]);
        let fewer = entries.drop_last();
        assert forall|j: int|
            i < j < fewer.len() implies !((#[trigger] fewer[j]).client_random == client_random
            && fewer[j].label == label) by {
            assert(fewer[j] == entries[j]);
        }
        law_last_entry_counts(fewer, client_random, label, i);
    }
}

/// The number of connections that a keylog has secrets for is that of the different randoms in it.
pub proof fn law_connections_are_counted_once(entries: Seq<SecretEntry>)
    ensures
        distinct_randoms(entries) == entries.map_values(
            |e: SecretEntry| e.client_random,
        ).to_set().len(),
        entries.map_values(|e: SecretEntry| e.client_random).to_set().finite(),
    decreases entries.len(),
{
    let randoms = entries.map_values(|e: SecretEntry| e.client_random);
    if entries.len() == 0 {
        assert(randoms.to_set() =~= Set::empty());
    } else {
        let fewer = entries.drop_last();
        let before = fewer.map_values(|e: SecretEntry| e.client_random);
        law_connections_are_counted_once(fewer);
        let last = entries.last().client_random;
        assert(randoms =~= before.push(last));
        assert(randoms.to_set() =~= before.to_set().insert(last)) by {
            assert forall|r: Seq<u8>| randoms.to_set().contains(r) <==> before.to_set().insert(
                last,
            ).contains(r) by {
                if before.contains(r) {
                    let i = choose|i: int| 0 <= i < before.len() && before[i] == r;
                    assert(randoms[i] == r);
                }
                if r == last {
                    assert(randoms[randoms.len() - 1] == r);
                }
                if randoms.contains(r) {
                    let i = choose|i: int| 0 <= i < randoms.len() && randoms[i] == r;
                    if i < before.len() {
                        assert(before[i] == r);
                    }
                }
            }
        }
        assert(mentions(fewer, last) <==> before.to_set().contains(last)) by {
            if mentions(fewer, last) {
                let i = choose|i: int|
                    0 <= i < fewer.len() && (#[trigger] fewer[i]).client_random == last;
                assert(before[i] == last);
            }
            if before.contains(last) {
                let i = choose|i: int| 0 <= i < before.len() && before[i] == last;
                assert(fewer[i].client_random == last);
            }
        }
    }
}

/// Each label is the one that its name, in capital letters, stands for.
pub proof fn law_labels_go_by_their_names()
    ensures
        label_named("CLIENT_RANDOM".spec_bytes()) == Some(SecretLabel::ClientRandom),
        label_named("CLIENT_HANDSHAKE_TRAFFIC_SECRET".spec_bytes()) == Some(
            SecretLabel::ClientHandshakeTrafficSecret,
        ),
        label_named("SERVER_HANDSHAKE_TRAFFIC_SECRET".spec_bytes()) == Some(
            SecretLabel::ServerHandshakeTrafficSecret,
        ),
        label_named("CLIENT_TRAFFIC_SECRET_0".spec_bytes()) == Some(
            SecretLabel::ClientTrafficSecret0,
        ),
        label_named("SERVER_TRAFFIC_SECRET_0".spec_bytes()) == Some(
            SecretLabel::ServerTrafficSecret0,
        ),
{
    reveal_strlit("CLIENT_RANDOM");
    reveal_strlit("CLIENT_HANDSHAKE_TRAFFIC_SECRET");
    reveal_strlit("SERVER_HANDSHAKE_TRAFFIC_SECRET");
    reveal_strlit("CLIENT_TRAFFIC_SECRET_0");
    reveal_strlit("SERVER_TRAFFIC_SECRET_0");
    is_ascii_spec_bytes("CLIENT_RANDOM");
    is_ascii_spec_bytes("CLIENT_HANDSHAKE_TRAFFIC_SECRET");
    is_ascii_spec_bytes("SERVER_HANDSHAKE_TRAFFIC_SECRET");
    is_ascii_spec_bytes("CLIENT_TRAFFIC_SECRET_0");
    is_ascii_spec_bytes("SERVER_TRAFFIC_SECRET_0");
    assert("CLIENT_RANDOM".spec_bytes().len() == 13);
    assert("CLIENT_HANDSHAKE_TRAFFIC_SECRET".spec_bytes().len() == 31);
    assert("SERVER_HANDSHAKE_TRAFFIC_SECRET".spec_bytes().len() == 31);
    assert("CLIENT_TRAFFIC_SECRET_0".spec_bytes().len() == 23);
    assert("SERVER_TRAFFIC_SECRET_0".spec_bytes().len() == 23);
    assert("CLIENT_HANDSHAKE_TRAFFIC_SECRET".spec_bytes()[0] == 0x43);
    assert("SERVER_HANDSHAKE_TRAFFIC_SECRET".spec_bytes()[0] == 0x53);
    assert("CLIENT_TRAFFIC_SECRET_0".spec_bytes()[0] == 0x43);
    assert("SERVER_TRAFFIC_SECRET_0".spec_bytes()[0] == 0x53);
}

} // verus!
