//! The supply-chain ledger: records of built artifacts, their SLSA provenance
//! statements, and the signing of the ledger's Merkle root.
use vstd::prelude::*;
use vstd::utf8::encode_utf8;
use crate::hexfmt::{append_hex, hex_text};
use crate::merkle::{merkle_root, MerkleTree};
use crate::digest::blake3_text;
use rand::rngs::OsRng;
use rand::RngCore;

verus! {

/// An instant, as whole seconds since the Unix epoch (negative before it) and
/// nanoseconds within the second (UTC).
#[derive(Debug, Clone, Copy, PartialEq, Eq, Structural)]
pub struct Timestamp {
    pub secs: i128,
    pub nanos: u32,
}

/// One artifact built and recorded in the ledger.
#[derive(Debug, Clone)]
pub struct SupplyChainRecord {
    pub sequence_number: u64,
    pub artifact_name: String,
    pub artifact_hash: String,
    pub builder_id: String,
    pub timestamp: Timestamp,
}

/// The subject of an in-toto statement: an artifact and its digests, each as
/// (algorithm, digest), one entry per algorithm.
#[derive(Debug, Clone)]
pub struct InTotoSubject {
    pub name: String,
    pub digest: Vec<(String, String)>,
}

/// The builder that produced an artifact.
#[derive(Debug, Clone)]
pub struct SlsaBuilder {
    pub id: String,
}

/// How the build was invoked: the ledger sequence number and the time of the record.
#[derive(Debug, Clone, Copy)]
pub struct SlsaInvocation {
    pub sequence_number: u64,
    pub timestamp: Timestamp,
}

/// The SLSA provenance predicate of a statement.
#[derive(Debug, Clone)]
pub struct SlsaProvenancePredicate {
    pub builder: SlsaBuilder,
    pub build_type: String,
    pub invocation: SlsaInvocation,
}

/// An in-toto statement carrying SLSA v1 provenance.
#[derive(Debug, Clone)]
pub struct InTotoStatement {
    pub statement_type: String,
    pub subject: Vec<InTotoSubject>,
    pub predicate_type: String,
    pub predicate: SlsaProvenancePredicate,
}

pub open spec fn statement_type_v1() -> Seq<char> {
    "https://in-toto.io/Statement/v1"@
}

pub open spec fn slsa_provenance_v1() -> Seq<char> {
    "https://slsa.dev/provenance/v1"@
}

pub open spec fn banana_build_type() -> Seq<char> {
    "https://requla.org/banana/build/v1"@
}

impl SupplyChainRecord {
    /// The SLSA v1 provenance statement of this record: the artifact as the only
    /// subject with its BLAKE3 digest, the builder, and the sequence number and
    /// time of the record as the invocation.
    pub fn to_slsa_v1_statement(&self) -> (st: InTotoStatement)
        ensures
            st.statement_type@ == statement_type_v1(),
            st.predicate_type@ == slsa_provenance_v1(),
            st.subject@.len() == 1,
            st.subject@[0].name@ == self.artifact_name@,
            st.subject@[0].digest@.len() == 1,
            st.subject@[0].digest@[0].0@ == "blake3"@,
            st.subject@[0].digest@[0].1@ == self.artifact_hash@,
            st.predicate.builder.id@ == self.builder_id@,
            st.predicate.build_type@ == banana_build_type(),
            st.predicate.invocation.sequence_number == self.sequence_number,
            st.predicate.invocation.timestamp == self.timestamp,
    {
        let mut digest: Vec<(String, String)> = Vec::new();
        digest.push(("blake3".to_owned(), self.artifact_hash.clone()));
        let mut subject: Vec<InTotoSubject> = Vec::new();
        subject.push(InTotoSubject { name: self.artifact_name.clone(), digest });
        InTotoStatement {
            statement_type: "https://in-toto.io/Statement/v1".to_owned(),
            subject,
            predicate_type: "https://slsa.dev/provenance/v1".to_owned(),
            predicate: SlsaProvenancePredicate {
                builder: SlsaBuilder { id: self.builder_id.clone() },
                build_type: "https://requla.org/banana/build/v1".to_owned(),
                invocation: SlsaInvocation {
                    sequence_number: self.sequence_number,
                    timestamp: self.timestamp,
                },
            },
        }
    }
}

/// Whether each record's sequence number is its position in the ledger.
pub open spec fn numbered_in_order(records: Seq<SupplyChainRecord>) -> bool {
    forall|i: int| 0 <= i < records.len() ==> #[trigger] records[i].sequence_number == i
}

/// Whether `leaf` is the BLAKE3 hash of some bytes that `serialize` may write for `record`.
pub open spec fn leaf_of<F: Fn(&SupplyChainRecord) -> Vec<u8>>(serialize: F, record: SupplyChainRecord, leaf: Seq<char>) -> bool {
    exists|bytes: Vec<u8>| #[trigger] serialize.ensures((&record,), bytes) && leaf == blake3_text(bytes@)
}

/// The Ed25519 signature (64 bytes, R then s) of `message` under the secret key
/// `secret`, as `ed25519_dalek::SigningKey::sign` computes it.
pub uninterp spec fn ed25519_signature(secret: Seq<u8>, message: Seq<u8>) -> Seq<u8>;

/// The Ed25519 public key (32 bytes) of the secret key `secret`, as
/// `ed25519_dalek::SigningKey::verifying_key` computes it.
pub uninterp spec fn ed25519_public_key(secret: Seq<u8>) -> Seq<u8>;

/// Fills 32 bytes from the operating system's random source
/// (`rand::RngCore::try_fill_bytes` on `rand::rngs::OsRng`), as
/// `SigningKey::generate` draws a secret key, but handing back `None` where the
/// source fails instead of panicking. Claimed of the crate: on success, 32 bytes.
/// Nothing is claimed of their value, nor of when the source fails.
#[verifier::external_body]
fn generate_secret_key() -> (res: Option<Vec<u8>>)
    ensures
        res matches Some(k) ==> k@.len() == 32,
{
    let mut secret = [0u8; 32];
    match OsRng.try_fill_bytes(&mut secret) {
        Ok(()) => Some(secret.to_vec()),
        Err(_) => None,
    }
}

/// Signs `message` with the secret key `secret` (`ed25519_dalek::Signer::sign`)
/// and hands back the signature's 64 bytes. Claimed of the crate: Ed25519
/// signing is deterministic, so the bytes are a function of the key and the message.
#[verifier::external_body]
fn ed25519_sign(secret: &[u8], message: &[u8]) -> (res: Vec<u8>)
    requires
        secret@.len() == 32,
    ensures
        res@ == ed25519_signature(secret@, message@),
        res@.len() == 64,
{
    let key_bytes: [u8; 32] = secret.try_into().unwrap();
    let key = ed25519_dalek::SigningKey::from_bytes(&key_bytes);
    ed25519_dalek::Signer::sign(&key, message).to_bytes().to_vec()
}

/// The public key of the secret key `secret`
/// (`ed25519_dalek::SigningKey::verifying_key`), as its 32 bytes.
/// Claimed of the crate: a function of the secret key alone.
#[verifier::external_body]
fn ed25519_verifying_key(secret: &[u8]) -> (res: Vec<u8>)
    requires
        secret@.len() == 32,
    ensures
        res@ == ed25519_public_key(secret@),
        res@.len() == 32,
{
    let key_bytes: [u8; 32] = secret.try_into().unwrap();
    ed25519_dalek::SigningKey::from_bytes(&key_bytes).verifying_key().to_bytes().to_vec()
}

/// `std::time::SystemTimeError`, what the clock reports when it reads before the Unix epoch.
#[verifier::external_type_specification]
#[verifier::external_body]
pub struct ExSystemTimeError(std::time::SystemTimeError);

/// Reads the system clock against the Unix epoch (`std::time::UNIX_EPOCH.elapsed()`):
/// the time since the epoch, or the error that carries how far before it the
/// clock reads. Nothing is claimed of the time.
#[verifier::external_body]
fn clock_since_epoch() -> (res: Result<std::time::Duration, std::time::SystemTimeError>) {
    std::time::UNIX_EPOCH.elapsed()
}

/// How far before the Unix epoch the clock read (`SystemTimeError::duration`).
/// Nothing is claimed of it.
#[verifier::external_body]
fn before_epoch_by(e: &std::time::SystemTimeError) -> (res: std::time::Duration) {
    e.duration()
}

/// The whole seconds of `d` (`Duration::as_secs`). Nothing is claimed of them.
#[verifier::external_body]
fn whole_seconds(d: &std::time::Duration) -> (res: u64) {
    d.as_secs()
}

/// The nanoseconds of `d` within its last second (`Duration::subsec_nanos`).
/// Claimed of std, as its documentation says: fewer than one billion.
#[verifier::external_body]
fn nanos_within_second(d: &std::time::Duration) -> (res: u32)
    ensures
        res < 1_000_000_000,
{
    d.subsec_nanos()
}

/// The instant `secs` seconds and `nanos` nanoseconds after the Unix epoch,
/// or before it where `before` holds, with the nanoseconds counted forward
/// within the second.
pub fn timestamp_from_epoch(before: bool, secs: u64, nanos: u32) -> (t: Timestamp)
    requires
        nanos < 1_000_000_000,
    ensures
        t.nanos < 1_000_000_000,
        t.secs * 1_000_000_000 + t.nanos == if before {
            -(secs * 1_000_000_000 + nanos)
        } else {
            secs * 1_000_000_000 + nanos
        },
{
    if !before {
        Timestamp { secs: secs as i128, nanos }
    } else if nanos == 0 {
        Timestamp { secs: -(secs as i128), nanos: 0 }
    } else {
        Timestamp { secs: -(secs as i128) - 1, nanos: 1_000_000_000 - nanos }
    }
}

/// The current time from the system clock, before the Unix epoch too.
fn utc_now() -> (res: Timestamp)
    ensures
        res.nanos < 1_000_000_000,
{
    match clock_since_epoch() {
        Ok(d) => timestamp_from_epoch(false, whole_seconds(&d), nanos_within_second(&d)),
        Err(e) => {
            let d = before_epoch_by(&e);
            timestamp_from_epoch(true, whole_seconds(&d), nanos_within_second(&d))
        },
    }
}

/// The ledger: the records so far, in order, and the key that signs the root of their tree.
pub struct LedgerWitness {
    signing_key: Vec<u8>,
    records: Vec<SupplyChainRecord>,
}

impl LedgerWitness {
    /// The secret signing key.
    pub closed spec fn secret(&self) -> Seq<u8> {
        self.signing_key@
    }

    /// The records, in order.
    pub closed spec fn records_view(&self) -> Seq<SupplyChainRecord> {
        self.records@
    }

    #[verifier::type_invariant]
    spec fn key_size(self) -> bool {
        self.signing_key@.len() == 32
    }

    /// An empty ledger with a freshly drawn signing key; `None` where the
    /// operating system's random source fails.
    pub fn new() -> (res: Option<LedgerWitness>)
        ensures
            res matches Some(w) ==> {
                &&& w.records_view().len() == 0
                &&& w.secret().len() == 32
                &&& numbered_in_order(w.records_view())
            },
    {
        match generate_secret_key() {
            Some(key) => Some(LedgerWitness { signing_key: key, records: Vec::new() }),
            None => None,
        }
    }

    /// Records a build of `artifact_name` with hash `artifact_hash` by
    /// `builder_id`, at the current time, and returns its sequence number: the
    /// number of records before it.
    pub fn append_record(&mut self, artifact_name: &str, artifact_hash: &str, builder_id: &str) -> (seq: u64)
        ensures
            seq == old(self).records_view().len(),
            final(self).secret() == old(self).secret(),
            final(self).records_view().len() == old(self).records_view().len() + 1,
            final(self).records_view().drop_last() == old(self).records_view(),
            final(self).records_view().last().sequence_number == seq,
            final(self).records_view().last().artifact_name@ == artifact_name@,
            final(self).records_view().last().artifact_hash@ == artifact_hash@,
            final(self).records_view().last().builder_id@ == builder_id@,
            numbered_in_order(old(self).records_view()) ==> numbered_in_order(final(self).records_view()),
    {
        let seq = self.records.len() as u64;
        let record = SupplyChainRecord {
            sequence_number: seq,
            artifact_name: artifact_name.to_owned(),
            artifact_hash: artifact_hash.to_owned(),
            builder_id: builder_id.to_owned(),
            timestamp: utc_now(),
        };
        proof {
            use_type_invariant(&*self);
        }
        let mut records: Vec<SupplyChainRecord> = Vec::new();
        std::mem::swap(&mut records, &mut self.records);
        records.push(record);
        self.records = records;
        proof {
            assert(self.records@.drop_last() =~= old(self).records@);
        }
        seq
    }

    /// Adds a record as it stands, as when a ledger is read back from storage.
    pub fn restore_record(&mut self, record: SupplyChainRecord)
        ensures
            final(self).secret() == old(self).secret(),
            final(self).records_view() == old(self).records_view().push(record),
    {
        proof {
            use_type_invariant(&*self);
        }
        let mut records: Vec<SupplyChainRecord> = Vec::new();
        std::mem::swap(&mut records, &mut self.records);
        records.push(record);
        self.records = records;
    }

    /// Signs the root hash of `tree` (its UTF-8 bytes) and returns the signature
    /// as upper-case hexadecimal text, with the public key that checks it.
    pub fn sign_root(&self, tree: &MerkleTree) -> (res: (String, Vec<u8>))
        ensures
            res.0@ == hex_text(
                ed25519_signature(self.secret(), encode_utf8(merkle_root(tree.leaves_view()))),
                true,
            ),
            res.1@ == ed25519_public_key(self.secret()),
    {
        proof {
            use_type_invariant(self);
        }
        let root = tree.root_hash();
        let signature = ed25519_sign(self.signing_key.as_slice(), root.as_str().as_bytes());
        let text = append_hex(String::new(), signature.as_slice(), true);
        proof {
            assert(Seq::<char>::empty() + hex_text(signature@, true) =~= hex_text(signature@, true));
        }
        (text, ed25519_verifying_key(self.signing_key.as_slice()))
    }

    /// The Merkle tree of the records: each leaf the BLAKE3 hash of one record
    /// as `serialize` writes it, in the order of the records.
    pub fn build_tree<F: Fn(&SupplyChainRecord) -> Vec<u8>>(&self, serialize: F) -> (tree: MerkleTree)
        requires
            forall|i: int| 0 <= i < self.records_view().len() ==> #[trigger] serialize.requires((&self.records_view()[i],)),
        ensures
            tree.leaves_view().len() == self.records_view().len(),
            forall|i: int| 0 <= i < self.records_view().len() ==> leaf_of(serialize, self.records_view()[i], #[trigger] tree.leaves_view()[i]),
    {
        let mut lines: Vec<Vec<u8>> = Vec::new();
        let mut i: usize = 0;
        assert(self.records_view() == self.records@);
        while i < self.records.len()
            invariant
                i <= self.records@.len(),
                lines@.len() == i,
                forall|j: int| 0 <= j < self.records@.len() ==> #[trigger] serialize.requires((&self.records@[j],)),
                forall|j: int| 0 <= j < i ==> serialize.ensures((&self.records@[j],), #[trigger] lines@[j]),
            decreases self.records@.len() - i,
        {
            let line = serialize(&self.records[i]);
            lines.push(line);
            i = i + 1;
        }
        let tree = MerkleTree::new(lines.as_slice());
        proof {
            assert forall|j: int| 0 <= j < self.records_view().len() implies leaf_of(serialize, self.records_view()[j], #[trigger] tree.leaves_view()[j]) by {
                let bytes = lines@[j];
                assert(serialize.ensures((&self.records@[j],), bytes));
                assert(tree.leaves_view()[j] == blake3_text(bytes@));
            }
        }
        tree
    }

    /// The number of records.
    pub fn record_count(&self) -> (n: usize)
        ensures
            n == self.records_view().len(),
    {
        self.records.len()
    }

    /// The records, in order.
    pub fn records(&self) -> (res: &[SupplyChainRecord])
        ensures
            res@ == self.records_view(),
    {
        self.records.as_slice()
    }
}

/// Law: the statement and predicate types of in-toto v1 and SLSA provenance
/// v1, and the build type of this builder.
pub proof fn lemma_provenance_types()
    ensures
        statement_type_v1() == "https://in-toto.io/Statement/v1"@,
        slsa_provenance_v1() == "https://slsa.dev/provenance/v1"@,
        banana_build_type() == "https://requla.org/banana/build/v1"@,
{
}

} // verus!
