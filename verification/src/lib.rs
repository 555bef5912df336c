//! Banana: a software supply-chain toolkit.
#![allow(unused_imports)]

pub mod hexfmt;
pub mod digest;
pub mod merkle;
pub mod graph;
pub mod symbols;
pub mod chunks;
pub mod swarm;
pub mod ledger;
pub mod oci;
pub mod telemetry;

pub use chunks::{ArtifactChunk, ChunkManifest};
pub use graph::DependencyGraph;
pub use ledger::{
    InTotoStatement, InTotoSubject, LedgerWitness, SlsaBuilder, SlsaInvocation,
    SlsaProvenancePredicate, SupplyChainRecord, Timestamp,
};
pub use merkle::{MerkleProof, MerkleTree};
pub use oci::{
    OciBuilder, OciConfig, OciDescriptor, OciError, OciExecutionConfig, OciImage, OciImageResult, OciIndex,
    OciLayout, OciManifest, OciRootfsConfig,
};
pub use swarm::{P2PNode, P2PSwarmManager, PeerDescriptor};
pub use symbols::{PolyglotAstEngine, SemanticSymbol, SymbolKind};
pub use telemetry::LinuxRaplReader;
