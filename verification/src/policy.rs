//! The budget: a ceiling on the size of the tree, and the low-water mark to
//! which a cleanup brings it down.

use vstd::prelude::*;

verus! {

/// The margin that applies where none is configured, in percent.
pub const DEFAULT_MARGIN: u8 = 85;

/// The highest margin, in percent.
pub const MAX_MARGIN: u8 = 100;

/// The number of bytes in a megabyte.
pub const BYTES_PER_MB: u128 = 1_048_576;

/// The margin that applies where none is configured, in percent.
pub fn default_margin() -> (margin: u8)
    ensures
        margin == DEFAULT_MARGIN,
{
    DEFAULT_MARGIN
}

/// Why a policy was refused.
#[derive(Clone, Copy, Debug, PartialEq, Eq)]
pub enum PolicyError {
    /// The margin, in percent, is above 100.
    MarginOutOfRange,
}

/// A ceiling in megabytes and a margin in percent of it.
#[derive(Clone, Copy, Debug)]
pub struct Policy {
    max_size_mb: u64,
    margin: u8,
}

impl Policy {
    #[verifier::type_invariant]
    spec fn inv(self) -> bool {
        self.margin <= MAX_MARGIN
    }

    /// The ceiling in megabytes.
    pub closed spec fn max_size_mb(self) -> u64 {
        self.max_size_mb
    }

    /// The margin in percent.
    pub closed spec fn margin(self) -> u8 {
        self.margin
    }

    /// The ceiling in bytes.
    pub open spec fn max_bytes(self) -> nat {
        self.max_size_mb() as nat * BYTES_PER_MB as nat
    }

    /// The low-water mark in bytes: the margin's share of the ceiling,
    /// rounded down.
    pub open spec fn target(self) -> nat {
        self.max_bytes() * self.margin() as nat / 100
    }

    /// A policy with the ceiling `max_size_mb` and the margin `margin`, or
    /// [`DEFAULT_MARGIN`] where `margin` is `None`. A margin above 100 is
    /// refused.
    pub fn new(max_size_mb: u64, margin: Option<u8>) -> (made: Result<Policy, PolicyError>)
        ensures
            match made {
                Ok(policy) => {
                    &&& policy.max_size_mb() == max_size_mb
                    &&& policy.margin() == match margin {
                        Some(m) => m,
                        None => DEFAULT_MARGIN,
                    }
                    &&& policy.margin() <= MAX_MARGIN
                },
                Err(e) => e == PolicyError::MarginOutOfRange && (margin matches Some(m) && m
                    > MAX_MARGIN),
            },
    {
        let margin = match margin {
            Some(m) => m,
            None => default_margin(),
        };
        if margin > MAX_MARGIN {
            Err(PolicyError::MarginOutOfRange)
        } else {
            Ok(Policy { max_size_mb, margin })
        }
    }

    /// The ceiling in megabytes.
    pub fn max_size_megabytes(&self) -> (mb: u64)
        ensures
            mb == self.max_size_mb(),
    {
        self.max_size_mb
    }

    /// The margin in percent, which is at most 100.
    pub fn margin_percent(&self) -> (margin: u8)
        ensures
            margin == self.margin(),
            margin <= MAX_MARGIN,
    {
        proof {
            use_type_invariant(self);
        }
        self.margin
    }

    /// The ceiling in bytes.
    pub fn max_size_bytes(&self) -> (bytes: u128)
        ensures
            bytes == self.max_bytes(),
    {
        let mb: u128 = self.max_size_mb as u128;
        assert(mb * BYTES_PER_MB <= u64::MAX * BYTES_PER_MB) by (nonlinear_arith)
            requires
                mb <= u64::MAX,
        ;
        mb * BYTES_PER_MB
    }

    /// The low-water mark in bytes, which is never above the ceiling.
    pub fn target_bytes(&self) -> (bytes: u128)
        ensures
            bytes == self.target(),
            bytes <= self.max_bytes(),
    {
        proof {
            use_type_invariant(self);
        }
        let max: u128 = self.max_size_bytes();
        let percent: u128 = self.margin as u128;
        assert(max * percent <= max * 100) by (nonlinear_arith)
            requires
                percent <= 100,
        ;
        max * percent / 100
    }

    /// Whether a tree of `total` bytes has reached the ceiling and must be
    /// cleaned up.
    pub fn needs_cleanup(&self, total: u128) -> (needed: bool)
        ensures
            needed == (total >= self.max_bytes()),
    {
        total >= self.max_size_bytes()
    }
}

} // verus!
