//! Why a sequence of bytes is not a MAST forest.

use vstd::prelude::*;
use vstd::string::*;

use crate::text::{
    decimal, hex_byte, push_decimal, say, say1, say2, say3, say_hex,
};

verus! {

/// The helper tables that validation allocates.
#[derive(Clone, Copy, PartialEq, Eq, Structural, Debug)]
pub enum AllocationLabel {
    DigestSlots,
    RebuiltDigests,
}

/// What is wrong with a sparse forest.
#[derive(Clone, Copy, PartialEq, Eq, Structural, Debug)]
pub enum SparseFault {
    RootCount { count: usize },
    FullCount { count: usize },
    DigestCount { count: usize },
    RootId { id: u32 },
    FullId { id: u32 },
    DigestId { id: u32 },
    FullOrder { id: u32 },
    DigestOrder { id: u32 },
    DuplicateFull { id: u32 },
    DuplicateDigest { id: u32 },
    Overlap { id: u32 },
    AdviceEntries { count: usize },
    MissingChild { node: u32, child: u32 },
    TrailingBytes,
}

/// A value that was read and refused.
#[derive(Clone, Copy, PartialEq, Eq, Structural, Debug)]
pub enum InvalidValue {
    OffsetOverflow,
    UsizeOutOfRange { value: u64 },
    BudgetExhausted { budget: usize },
    TooManyElements { requested: usize, available: usize },
    InvalidFelt { value: u64 },
    InvalidMagic,
    UnknownFlags { flags: u8 },
    HashlessNotAllowed,
    UnsupportedVersion { major: u8, minor: u8, patch: u8 },
    NodeCountOverflow,
    NodeCountExceedsMaximum { count: usize, maximum: usize },
    NodeCountExceedsBound { count: usize, bound: usize },
    NodeIndexOutOfBounds { index: usize },
    RootIndexOutOfBounds { index: usize, count: usize },
    RootOutOfBounds { root: u32, count: usize },
    InvalidNodeType { discriminant: u8 },
    InvalidNodePayload { payload: u64 },
    ExternalCountMismatch { header: usize, entries: usize },
    UnknownOpcode { code: u8 },
    BlockOffsetOutOfBounds { offset: u32 },
    BatchOpsMismatch { batch: usize },
    PushImmediateConflict { group: usize },
    GroupGap { group: usize },
    GroupTooLong { group: usize },
    ExternalAfterBlock { index: usize },
    ExternalAfterInternal { index: usize },
    ExternalsNotIncreasing { index: usize },
    BlockAfterInternal { index: usize },
    ChildNotBefore { node: usize, child: u32 },
    AllocationOverflow { label: AllocationLabel },
    AllocationExceeded { label: AllocationLabel, needed: usize, remaining: usize },
    TrailingBytes,
    Sparse(SparseFault),
}

/// Why reading failed.
#[derive(Clone, Copy, PartialEq, Eq, Structural, Debug)]
pub enum DeserializationError {
    UnexpectedEOF,
    InvalidValue(InvalidValue),
}

impl AllocationLabel {
    pub open spec fn text(self) -> Seq<char> {
        match self {
            AllocationLabel::DigestSlots => "digest slot table"@,
            AllocationLabel::RebuiltDigests => "rebuilt digest table"@,
        }
    }

    pub fn as_str(&self) -> (text: &'static str)
        ensures
            text@ == self.text(),
    {
        match self {
            AllocationLabel::DigestSlots => "digest slot table",
            AllocationLabel::RebuiltDigests => "rebuilt digest table",
        }
    }
}

impl SparseFault {
    /// What to tell the user.
    pub open spec fn text(self) -> Seq<char> {
        match self {
            SparseFault::RootCount { count } => "procedure root count "@ + decimal(count as nat) + " exceeds maximum"@,
            SparseFault::FullCount { count } => "full node count "@ + decimal(count as nat) + " exceeds maximum"@,
            SparseFault::DigestCount { count } => "digest-only node count "@ + decimal(count as nat) + " exceeds maximum"@,
            SparseFault::RootId { id } => "procedure root id "@ + decimal(id as nat) + " exceeds maximum: it is not below the largest number of nodes in the forest"@,
            SparseFault::FullId { id } => "full node id "@ + decimal(id as nat) + " exceeds maximum: it is not below the largest number of nodes in the forest"@,
            SparseFault::DigestId { id } => "digest-only node id "@ + decimal(id as nat) + " exceeds maximum: it is not below the largest number of nodes in the forest"@,
            SparseFault::FullOrder { id } => "sparse full node ids must be strictly increasing at id "@ + decimal(id as nat) + ""@,
            SparseFault::DigestOrder { id } => "sparse digest-only node ids must be strictly increasing at id "@ + decimal(id as nat) + ""@,
            SparseFault::DuplicateFull { id } => "duplicate sparse full-node id "@ + decimal(id as nat) + ""@,
            SparseFault::DuplicateDigest { id } => "duplicate sparse digest-only id "@ + decimal(id as nat) + ""@,
            SparseFault::Overlap { id } => "sparse full node "@ + decimal(id as nat) + " overlaps a digest-only entry"@,
            SparseFault::AdviceEntries { count } => "sparse payload must not carry advice map entries, but has "@ + decimal(count as nat) + ""@,
            SparseFault::MissingChild { node, child } => "sparse node "@ + decimal(node as nat) + " references child "@ + decimal(child as nat) + " without a full node or digest-only entry"@,
            SparseFault::TrailingBytes => "extra bytes after SparseMastForest payload"@,
        }
    }

    pub fn message(&self) -> (message: String)
        ensures
            message@ == self.text(),
    {
        match self {
            SparseFault::RootCount { count } => say1("procedure root count ", *count as u64, " exceeds maximum"),
            SparseFault::FullCount { count } => say1("full node count ", *count as u64, " exceeds maximum"),
            SparseFault::DigestCount { count } => say1("digest-only node count ", *count as u64, " exceeds maximum"),
            SparseFault::RootId { id } => say1("procedure root id ", *id as u64, " exceeds maximum: it is not below the largest number of nodes in the forest"),
            SparseFault::FullId { id } => say1("full node id ", *id as u64, " exceeds maximum: it is not below the largest number of nodes in the forest"),
            SparseFault::DigestId { id } => say1("digest-only node id ", *id as u64, " exceeds maximum: it is not below the largest number of nodes in the forest"),
            SparseFault::FullOrder { id } => say1("sparse full node ids must be strictly increasing at id ", *id as u64, ""),
            SparseFault::DigestOrder { id } => say1("sparse digest-only node ids must be strictly increasing at id ", *id as u64, ""),
            SparseFault::DuplicateFull { id } => say1("duplicate sparse full-node id ", *id as u64, ""),
            SparseFault::DuplicateDigest { id } => say1("duplicate sparse digest-only id ", *id as u64, ""),
            SparseFault::Overlap { id } => say1("sparse full node ", *id as u64, " overlaps a digest-only entry"),
            SparseFault::AdviceEntries { count } => say1("sparse payload must not carry advice map entries, but has ", *count as u64, ""),
            SparseFault::MissingChild { node, child } => say2("sparse node ", *node as u64, " references child ", *child as u64, " without a full node or digest-only entry"),
            SparseFault::TrailingBytes => say("extra bytes after SparseMastForest payload"),
        }
    }
}

impl InvalidValue {
    /// What to tell the user.
    pub open spec fn text(self) -> Seq<char> {
        match self {
            InvalidValue::OffsetOverflow => "offset overflow"@,
            InvalidValue::UsizeOutOfRange { value } => "Encoded value "@ + decimal(value as nat) + " does not fit"@,
            InvalidValue::BudgetExhausted { budget } => "budget exhausted: "@ + decimal(budget as nat) + " bytes"@,
            InvalidValue::TooManyElements { requested, available } => "requested "@ + decimal(requested as nat) + " elements but reader can provide at most "@ + decimal(available as nat) + ""@,
            InvalidValue::InvalidFelt { value } => "value "@ + decimal(value as nat) + " is not a valid felt"@,
            InvalidValue::InvalidMagic => "Invalid magic bytes"@,
            InvalidValue::UnknownFlags { flags } => "Unknown flags in MAST header: 0x"@ + hex_byte(flags) + ". Reserved bits must be zero"@,
            InvalidValue::HashlessNotAllowed => "HASHLESS flag is set; hashless payloads must be validated before use"@,
            InvalidValue::UnsupportedVersion { major, minor, patch } => "Unsupported version: "@ + decimal(major as nat) + "."@ + decimal(minor as nat) + "."@ + decimal(patch as nat) + ""@,
            InvalidValue::NodeCountOverflow => "node count overflow"@,
            InvalidValue::NodeCountExceedsMaximum { count, maximum } => "node count "@ + decimal(count as nat) + " exceeds maximum "@ + decimal(maximum as nat) + ""@,
            InvalidValue::NodeCountExceedsBound { count, bound } => "node count "@ + decimal(count as nat) + " exceeds reader allocation bound "@ + decimal(bound as nat) + ""@,
            InvalidValue::NodeIndexOutOfBounds { index } => "node index "@ + decimal(index as nat) + " out of bounds"@,
            InvalidValue::RootIndexOutOfBounds { index, count } => "root index "@ + decimal(index as nat) + " out of bounds for "@ + decimal(count as nat) + " roots"@,
            InvalidValue::RootOutOfBounds { root, count } => "procedure root "@ + decimal(root as nat) + " out of bounds for "@ + decimal(count as nat) + " nodes"@,
            InvalidValue::InvalidNodeType { discriminant } => "invalid node type "@ + decimal(discriminant as nat) + ""@,
            InvalidValue::InvalidNodePayload { payload } => "invalid node payload "@ + decimal(payload as nat) + ""@,
            InvalidValue::ExternalCountMismatch { header, entries } => "header external node count "@ + decimal(header as nat) + " does not match "@ + decimal(entries as nat) + " external node entries"@,
            InvalidValue::UnknownOpcode { code } => "unknown operation code "@ + decimal(code as nat) + ""@,
            InvalidValue::BlockOffsetOutOfBounds { offset } => "basic block offset "@ + decimal(offset as nat) + " out of bounds"@,
            InvalidValue::BatchOpsMismatch { batch } => "batch "@ + decimal(batch as nat) + " does not match the operations of its block"@,
            InvalidValue::PushImmediateConflict { group } => "group "@ + decimal(group as nat) + " leaves no slot for a push immediate"@,
            InvalidValue::GroupGap { group } => "group "@ + decimal(group as nat) + " leaves a slot empty before it"@,
            InvalidValue::GroupTooLong { group } => "group "@ + decimal(group as nat) + " holds too many operations"@,
            InvalidValue::ExternalAfterBlock { index } => "External node "@ + decimal(index as nat) + " after BasicBlock"@,
            InvalidValue::ExternalAfterInternal { index } => "External node "@ + decimal(index as nat) + " after internal node"@,
            InvalidValue::ExternalsNotIncreasing { index } => "external node digests must be strictly increasing at node "@ + decimal(index as nat) + ""@,
            InvalidValue::BlockAfterInternal { index } => "BasicBlock node "@ + decimal(index as nat) + " after internal node"@,
            InvalidValue::ChildNotBefore { node, child } => "node "@ + decimal(node as nat) + " references child "@ + decimal(child as nat) + " that does not come before it"@,
            InvalidValue::TrailingBytes => "extra bytes after MastForest payload"@,
            InvalidValue::Sparse(fault) => fault.text(),
            InvalidValue::AllocationOverflow { label } => label.text() + " size overflow"@,
            InvalidValue::AllocationExceeded { label, needed, remaining } => label.text()
                + " requires "@ + decimal(needed as nat)
                + " bytes, exceeding the remaining untrusted allocation budget of "@ + decimal(
                remaining as nat,
            ) + " bytes"@,
        }
    }

    pub fn message(&self) -> (message: String)
        ensures
            message@ == self.text(),
    {
        match self {
            InvalidValue::OffsetOverflow => say("offset overflow"),
            InvalidValue::UsizeOutOfRange { value } => say1("Encoded value ", *value as u64, " does not fit"),
            InvalidValue::BudgetExhausted { budget } => say1("budget exhausted: ", *budget as u64, " bytes"),
            InvalidValue::TooManyElements { requested, available } => say2("requested ", *requested as u64, " elements but reader can provide at most ", *available as u64, ""),
            InvalidValue::InvalidFelt { value } => say1("value ", *value as u64, " is not a valid felt"),
            InvalidValue::InvalidMagic => say("Invalid magic bytes"),
            InvalidValue::UnknownFlags { flags } => say_hex("Unknown flags in MAST header: 0x", *flags, ". Reserved bits must be zero"),
            InvalidValue::HashlessNotAllowed => say("HASHLESS flag is set; hashless payloads must be validated before use"),
            InvalidValue::UnsupportedVersion { major, minor, patch } => say3("Unsupported version: ", *major as u64, ".", *minor as u64, ".", *patch as u64, ""),
            InvalidValue::NodeCountOverflow => say("node count overflow"),
            InvalidValue::NodeCountExceedsMaximum { count, maximum } => say2("node count ", *count as u64, " exceeds maximum ", *maximum as u64, ""),
            InvalidValue::NodeCountExceedsBound { count, bound } => say2("node count ", *count as u64, " exceeds reader allocation bound ", *bound as u64, ""),
            InvalidValue::NodeIndexOutOfBounds { index } => say1("node index ", *index as u64, " out of bounds"),
            InvalidValue::RootIndexOutOfBounds { index, count } => say2("root index ", *index as u64, " out of bounds for ", *count as u64, " roots"),
            InvalidValue::RootOutOfBounds { root, count } => say2("procedure root ", *root as u64, " out of bounds for ", *count as u64, " nodes"),
            InvalidValue::InvalidNodeType { discriminant } => say1("invalid node type ", *discriminant as u64, ""),
            InvalidValue::InvalidNodePayload { payload } => say1("invalid node payload ", *payload as u64, ""),
            InvalidValue::ExternalCountMismatch { header, entries } => say2("header external node count ", *header as u64, " does not match ", *entries as u64, " external node entries"),
            InvalidValue::UnknownOpcode { code } => say1("unknown operation code ", *code as u64, ""),
            InvalidValue::BlockOffsetOutOfBounds { offset } => say1("basic block offset ", *offset as u64, " out of bounds"),
            InvalidValue::BatchOpsMismatch { batch } => say1("batch ", *batch as u64, " does not match the operations of its block"),
            InvalidValue::PushImmediateConflict { group } => say1("group ", *group as u64, " leaves no slot for a push immediate"),
            InvalidValue::GroupGap { group } => say1("group ", *group as u64, " leaves a slot empty before it"),
            InvalidValue::GroupTooLong { group } => say1("group ", *group as u64, " holds too many operations"),
            InvalidValue::ExternalAfterBlock { index } => say1("External node ", *index as u64, " after BasicBlock"),
            InvalidValue::ExternalAfterInternal { index } => say1("External node ", *index as u64, " after internal node"),
            InvalidValue::ExternalsNotIncreasing { index } => say1("external node digests must be strictly increasing at node ", *index as u64, ""),
            InvalidValue::BlockAfterInternal { index } => say1("BasicBlock node ", *index as u64, " after internal node"),
            InvalidValue::ChildNotBefore { node, child } => say2("node ", *node as u64, " references child ", *child as u64, " that does not come before it"),
            InvalidValue::TrailingBytes => say("extra bytes after MastForest payload"),
            InvalidValue::Sparse(fault) => fault.message(),
            InvalidValue::AllocationOverflow { label } => {
                let mut text = say(label.as_str());
                text.append(" size overflow");
                text
            },
            InvalidValue::AllocationExceeded { label, needed, remaining } => {
                let mut text = say(label.as_str());
                text.append(" requires ");
                push_decimal(&mut text, *needed as u64);
                text.append(" bytes, exceeding the remaining untrusted allocation budget of ");
                push_decimal(&mut text, *remaining as u64);
                text.append(" bytes");
                text
            },
        }
    }
}

impl DeserializationError {
    /// What to tell the user.
    pub open spec fn text(self) -> Seq<char> {
        match self {
            DeserializationError::UnexpectedEOF => "unexpected end of file"@,
            DeserializationError::InvalidValue(value) => value.text(),
        }
    }

    pub fn message(&self) -> (message: String)
        ensures
            message@ == self.text(),
    {
        match self {
            DeserializationError::UnexpectedEOF => say("unexpected end of file"),
            DeserializationError::InvalidValue(value) => value.message(),
        }
    }
}

} // verus!
